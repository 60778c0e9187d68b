//! Fixed-point scalars: a real `x` is held as the integer `x * ONE`, rounded down.
use vstd::prelude::*;
use vstd::arithmetic::div_mod::lemma_fundamental_div_mod;
use vstd::arithmetic::div_mod::lemma_fundamental_div_mod_converse;

verus! {

/// The raw value that stands for the real number 1.
pub const ONE: i64 = 65536;

/// Largest magnitude of a raw coordinate, radius or ray parameter accepted as input.
pub const LIMIT: i64 = 268435456;

/// Largest magnitude of a raw component that vector arithmetic accepts.
pub const SPAN: i64 = LIMIT * 4194304;

/// Largest magnitude of a component of a point along an accepted ray at an accepted parameter.
pub const REACH: i64 = LIMIT * 8192;

/// The integer square root, rounded down.
pub open spec fn is_floor_sqrt(n: int, r: int) -> bool {
    0 <= r && r * r <= n && n < (r + 1) * (r + 1)
}

/// Integer square root of `n`, rounded down.
pub fn floor_sqrt(n: u128) -> (r: u128)
    ensures
        is_floor_sqrt(n as int, r as int),
{
    let mut lo: u128 = 0;
    let mut hi: u128 = 0x1_0000_0000_0000_0000;
    assert(n < hi * hi) by (nonlinear_arith)
        requires hi == 0x1_0000_0000_0000_0000u128, n <= u128::MAX;
    while hi - lo > 1
        invariant
            lo < hi <= 0x1_0000_0000_0000_0000u128,
            lo * lo <= n,
            n < hi * hi,
        decreases hi - lo,
    {
        let mid: u128 = lo + (hi - lo) / 2;
        assert(mid * mid <= 0xFFFF_FFFF_FFFF_FFFFu128 * 0xFFFF_FFFF_FFFF_FFFFu128) by (nonlinear_arith)
            requires mid < 0x1_0000_0000_0000_0000u128;
        if mid * mid <= n {
            lo = mid;
        } else {
            hi = mid;
        }
    }
    assert(hi == lo + 1);
    lo
}

/// Division rounded towards negative infinity (the spec `/` for a positive divisor).
pub fn floor_div(n: i128, d: i128) -> (q: i128)
    requires
        d > 0,
    ensures
        q == n / d,
{
    if n >= 0 {
        n / d
    } else {
        let m: i128 = -(n + 1);
        let q0: i128 = m / d;
        proof {
            lemma_fundamental_div_mod(m as int, d as int);
            let r = m as int % d as int;
            assert(n == (-q0 - 1) * d + (d - r - 1)) by (nonlinear_arith)
                requires m == -(n + 1), m == d * q0 + r, 0 <= r < d;
            lemma_fundamental_div_mod_converse(n as int, d as int, -q0 - 1, d - r - 1);
        }
        -q0 - 1
    }
}

} // verus!
