//! Integer square root and sign-aware division helpers.
//!
//! The simulation works in fixed-point arithmetic, so distances and
//! normalized directions are derived with an exact integer square root and
//! divisions whose rounding direction is pinned down by specification
//! functions.

use vstd::prelude::*;

verus! {

/// The largest `k` with `k * k <= n`.
pub open spec fn sqrt_floor(n: nat) -> nat
    decreases n,
{
    if n == 0 {
        0
    } else {
        let r = sqrt_floor((n - 1) as nat);
        if (r + 1) * (r + 1) <= n {
            r + 1
        } else {
            r
        }
    }
}

pub proof fn lemma_sqrt_floor_bounds(n: nat)
    ensures
        sqrt_floor(n) * sqrt_floor(n) <= n,
        n < (sqrt_floor(n) + 1) * (sqrt_floor(n) + 1),
    decreases n,
{
    if n > 0 {
        lemma_sqrt_floor_bounds((n - 1) as nat);
        let r = sqrt_floor((n - 1) as nat);
        if (r + 1) * (r + 1) <= n {
            assert(sqrt_floor(n) == r + 1);
            assert((r + 1) * (r + 1) < (r + 2) * (r + 2)) by (nonlinear_arith);
        } else {
            assert(sqrt_floor(n) == r);
        }
    } else {
        assert(sqrt_floor(n) == 0);
        assert(n < (sqrt_floor(n) + 1) * (sqrt_floor(n) + 1)) by (nonlinear_arith)
            requires
                sqrt_floor(n) == 0,
                n == 0,
        ;
    }
}

pub proof fn lemma_sqrt_floor_unique(n: nat, k: nat)
    requires
        k * k <= n,
        n < (k + 1) * (k + 1),
    ensures
        k == sqrt_floor(n),
{
    lemma_sqrt_floor_bounds(n);
    let s = sqrt_floor(n);
    if k < s {
        assert((k + 1) * (k + 1) <= s * s) by (nonlinear_arith)
            requires
                k + 1 <= s,
        ;
    } else if s < k {
        assert((s + 1) * (s + 1) <= k * k) by (nonlinear_arith)
            requires
                s + 1 <= k,
        ;
    }
}

/// Binary-search integer square root.
pub fn isqrt(n: u128) -> (r: u64)
    ensures
        r as nat == sqrt_floor(n as nat),
{
    let mut lo: u128 = 0;
    let mut hi: u128 = 1u128 << 64;
    assert((1u128 << 64) == 0x1_0000_0000_0000_0000u128) by (bit_vector);
    assert(n < (hi as nat) * (hi as nat)) by (nonlinear_arith)
        requires
            hi == 0x1_0000_0000_0000_0000u128,
            n <= u128::MAX,
    ;
    while lo + 1 < hi
        invariant
            lo < hi,
            hi <= 0x1_0000_0000_0000_0000u128,
            (lo as nat) * (lo as nat) <= n as nat,
            (n as nat) < (hi as nat) * (hi as nat),
        decreases hi - lo,
    {
        let mid: u128 = lo + (hi - lo) / 2;
        assert((mid as nat) * (mid as nat) < 0x1_0000_0000_0000_0000_0000_0000_0000_0000) by (nonlinear_arith)
            requires
                mid < 0x1_0000_0000_0000_0000u128,
        ;
        if mid * mid <= n {
            lo = mid;
        } else {
            hi = mid;
        }
    }
    proof {
        lemma_sqrt_floor_unique(n as nat, lo as nat);
    }
    lo as u64
}

/// Division truncating toward zero, for a positive divisor; matches the
/// rounding of the exec helpers below.
pub open spec fn tdiv(a: int, b: int) -> int {
    if a >= 0 {
        a / b
    } else {
        -((-a) / b)
    }
}

/// Truncating division of a signed value by a positive divisor.
pub fn div_trunc(a: i128, b: i128) -> (r: i128)
    requires
        1 <= b,
        i128::MIN < a,
    ensures
        r == tdiv(a as int, b as int),
{
    if a >= 0 {
        let q: u128 = (a as u128) / (b as u128);
        q as i128
    } else {
        let q: u128 = ((-a) as u128) / (b as u128);
        -(q as i128)
    }
}

/// Floor division of a signed value by a positive divisor; agrees with the
/// mathematical `/` on `int`.
pub fn div_floor(a: i64, b: i64) -> (r: i64)
    requires
        1 <= b,
        i64::MIN < a,
    ensures
        r as int == (a as int) / (b as int),
{
    if a >= 0 {
        let q: u64 = (a as u64) / (b as u64);
        q as i64
    } else {
        let m: u64 = (-a) as u64;
        let q: u64 = m / (b as u64) + if m % (b as u64) != 0 { 1u64 } else { 0u64 };
        proof {
            lemma_neg_div_floor(m as int, b as int);
            vstd::arithmetic::div_mod::lemma_div_basics_5(m as int, b as int);
            if m as int % (b as int) != 0 {
                vstd::arithmetic::div_mod::lemma_mod_bound(m as int, b as int);
                vstd::arithmetic::div_mod::lemma_fundamental_div_mod(m as int, b as int);
                vstd::arithmetic::div_mod::lemma_div_pos_is_pos(m as int, b as int);
                assert((b as int) * ((m as int) / (b as int)) >= 0) by (nonlinear_arith)
                    requires
                        b as int >= 1,
                        (m as int) / (b as int) >= 0,
                ;
                vstd::arithmetic::div_mod::lemma_div_is_strictly_smaller(m as int, b as int);
            }
        }
        -(q as i64)
    }
}

proof fn lemma_neg_div_floor(m: int, b: int)
    requires
        0 <= m,
        1 <= b,
    ensures
        (-m) / b == -(m / b + if m % b != 0 { 1int } else { 0int }),
{
    vstd::arithmetic::div_mod::lemma_fundamental_div_mod(m, b);
    vstd::arithmetic::div_mod::lemma_mod_bound(m, b);
    let q = m / b;
    let r = m % b;
    if r == 0 {
        assert(-m == (-q) * b + 0) by (nonlinear_arith)
            requires
                m == b * q + r,
                r == 0,
        ;
        vstd::arithmetic::div_mod::lemma_fundamental_div_mod_converse(-m, b, -q, 0);
    } else {
        assert(-m == (-(q + 1)) * b + (b - r)) by (nonlinear_arith)
            requires
                m == b * q + r,
        ;
        vstd::arithmetic::div_mod::lemma_fundamental_div_mod_converse(-m, b, -(q + 1), b - r);
    }
}

/// Sign of an integer: -1, 0 or 1.
pub open spec fn sgn(a: int) -> int {
    if a > 0 {
        1
    } else if a < 0 {
        -1
    } else {
        0
    }
}

/// `|a / b| <= |a|` for a positive divisor.
pub proof fn lemma_tdiv_bound(a: int, b: int)
    requires
        1 <= b,
    ensures
        a >= 0 ==> 0 <= tdiv(a, b) <= a,
        a <= 0 ==> a <= tdiv(a, b) <= 0,
{
    if a >= 0 {
        vstd::arithmetic::div_mod::lemma_div_basics_5(a, b);
        vstd::arithmetic::div_mod::lemma_div_pos_is_pos(a, b);
    } else {
        vstd::arithmetic::div_mod::lemma_div_basics_5(-a, b);
        vstd::arithmetic::div_mod::lemma_div_pos_is_pos(-a, b);
    }
}

} // verus!
