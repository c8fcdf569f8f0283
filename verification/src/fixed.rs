//! Fixed-point numeric representation.
//!
//! A value is an `i64` counting micro-units: `SCALE` micro-units make one
//! whole unit. Table values and weights are kept within `VAL_MAX` micro-units
//! so that products and running sums computed by the rest of the crate stay
//! inside the machine integer ranges.

use vstd::prelude::*;

verus! {

/// Number of micro-units in one whole unit.
pub const SCALE: i64 = 1_000_000;

/// Largest magnitude (in micro-units) admitted for table values and weights.
pub const VAL_MAX: i64 = 10_000_000_000;

/// A table value or weight within the admitted range.
pub open spec fn fits_val(v: i64) -> bool {
    -VAL_MAX <= v <= VAL_MAX
}

/// Clamp a value into the canonical interval [0, SCALE].
pub open spec fn spec_clamp01(v: int) -> int {
    if v < 0 {
        0
    } else if v > SCALE {
        SCALE as int
    } else {
        v
    }
}

/// Division truncating toward zero, as machine division does; meaningful for
/// positive divisors.
pub open spec fn divt(a: int, b: int) -> int
    recommends
        b > 0,
{
    if a >= 0 {
        a / b
    } else {
        -((-a) / b)
    }
}

/// Truncating division shrinks magnitude: `|divt(a, b)| <= |a|` for `b > 0`.
pub proof fn lemma_divt_shrinks(a: int, b: int)
    requires
        b > 0,
    ensures
        a >= 0 ==> 0 <= divt(a, b) <= a,
        a < 0 ==> a <= divt(a, b) <= 0,
{
    if a >= 0 {
        vstd::arithmetic::div_mod::lemma_div_nonincreasing(a, b);
        vstd::arithmetic::div_mod::lemma_div_pos_is_pos(a, b);
    } else {
        vstd::arithmetic::div_mod::lemma_div_nonincreasing(-a, b);
        vstd::arithmetic::div_mod::lemma_div_pos_is_pos(-a, b);
    }
}

/// Compute `divt(a * b, d)` exactly, for results that fit the machine range.
pub fn muldiv(a: i64, b: i64, d: i64) -> (r: i64)
    requires
        d > 0,
        i64::MIN <= divt(a as int * b as int, d as int) <= i64::MAX,
    ensures
        r as int == divt(a as int * b as int, d as int),
{
    proof {
        assert(-0x40000000000000000000000000000000 <= (a as int) * (b as int)
            <= 0x40000000000000000000000000000000) by (nonlinear_arith)
            requires
                -0x8000000000000000 <= a as int <= 0x7fffffffffffffff,
                -0x8000000000000000 <= b as int <= 0x7fffffffffffffff,
        ;
    }
    let prod: i128 = (a as i128) * (b as i128);
    if prod >= 0 {
        let q: u128 = (prod as u128) / (d as u128);
        q as i64
    } else {
        let q: u128 = ((-prod) as u128) / (d as u128);
        assert(q == (-(a as int * b as int)) / (d as int));
        -(q as i128) as i64
    }
}

/// Compute `divt(a * b, d)` exactly; the result always fits the wide machine
/// range.
pub fn muldiv_wide(a: i64, b: i64, d: i64) -> (r: i128)
    requires
        d > 0,
    ensures
        r as int == divt(a as int * b as int, d as int),
{
    proof {
        assert(-0x40000000000000000000000000000000 <= (a as int) * (b as int)
            <= 0x40000000000000000000000000000000) by (nonlinear_arith)
            requires
                -0x8000000000000000 <= a as int <= 0x7fffffffffffffff,
                -0x8000000000000000 <= b as int <= 0x7fffffffffffffff,
        ;
        lemma_divt_shrinks((a as int) * (b as int), d as int);
    }
    let prod: i128 = (a as i128) * (b as i128);
    if prod >= 0 {
        let q: u128 = (prod as u128) / (d as u128);
        q as i128
    } else {
        let q: u128 = ((-prod) as u128) / (d as u128);
        -(q as i128)
    }
}


} // verus!
