//! Products and quotients that need more than 128 bits on the way.
use crate::feerate;
use vstd::prelude::*;

verus! {

/// Numerators and divisors stay below this.
pub const RATIO_LIMIT: u128 = 0x100_0000_0000_0000_0000_0000_0000;

/// Quotient and remainder of `a * b / d`, or `None` where the quotient exceeds a `u64`.
pub fn mul_div_rem(a: u128, b: u64, d: u128) -> (r: Option<(u64, u128)>)
    requires
        a < RATIO_LIMIT,
        0 < d < RATIO_LIMIT,
    ensures
        match r {
            Some((q, rem)) => q == (a * b) / (d as int) && rem == (a * b) % (d as int),
            None => (a * b) / (d as int) > u64::MAX,
        },
    decreases b,
{
    if b == 0 {
        proof {
            assert(a * 0 == 0) by (nonlinear_arith);
            assert(0int / (d as int) == 0 && 0int % (d as int) == 0) by (nonlinear_arith)
                requires
                    d > 0,
            ;
        }
        return Some((0, 0));
    }
    let ghost half = (b / 2) as int;
    let ghost bit = (b % 2) as int;
    proof {
        let x = a as int;
        assert(x * (2 * half + bit) == 2 * (x * half) + x * bit) by (nonlinear_arith);
        assert(x * bit == (if bit == 1 {
            x
        } else {
            0
        })) by (nonlinear_arith)
            requires
                bit == 0 || bit == 1,
        ;
        assert(b == 2 * half + bit);
    }
    match mul_div_rem(a, b / 2, d) {
        None => {
            proof {
                // The product is at least that with half the factor.
                let (x, y) = (a * half, a * b);
                assert(0 <= x) by (nonlinear_arith)
                    requires
                        x == a * half,
                        half >= 0,
                        a >= 0,
                ;
                vstd::arithmetic::div_mod::lemma_div_is_ordered(x, y, d as int);
            }
            None
        },
        Some((q, rem)) => {
            let extra: u128 = if b % 2 == 1 {
                a
            } else {
                0
            };
            let total: u128 = 2 * rem + extra;
            let carry: u128 = total / d;
            let left: u128 = total % d;
            let quotient: u128 = 2 * (q as u128) + carry;
            proof {
                let (e, x) = (d as int, a * half);
                vstd::arithmetic::div_mod::lemma_fundamental_div_mod(x, e);
                vstd::arithmetic::div_mod::lemma_fundamental_div_mod(total as int, e);
                let (qi, ci) = (q as int, carry as int);
                assert(e * (2 * qi + ci) == 2 * (e * qi) + e * ci) by (nonlinear_arith);
                assert(a * b == e * (2 * qi + ci) + left);
                assert(e * (2 * qi + ci) == (2 * qi + ci) * e) by (nonlinear_arith);
                vstd::arithmetic::div_mod::lemma_fundamental_div_mod_converse(
                    a * b,
                    e,
                    2 * qi + ci,
                    left as int,
                );
            }
            if quotient > u64::MAX as u128 {
                None
            } else {
                Some((quotient as u64, left))
            }
        },
    }
}

/// `a * b / d` rounded down, saturating at `u64::MAX`.
pub fn mul_div(a: u128, b: u64, d: u128) -> (r: u64)
    requires
        a < RATIO_LIMIT,
        0 < d < RATIO_LIMIT,
    ensures
        r == feerate::saturated((a * b) / (d as int)),
{
    match mul_div_rem(a, b, d) {
        Some((q, _)) => q,
        None => u64::MAX,
    }
}

/// Whether `a * b / d` is more than `limit`.
pub fn mul_div_exceeds(a: u128, b: u64, d: u128, limit: u64) -> (r: bool)
    requires
        a < RATIO_LIMIT,
        0 < d < RATIO_LIMIT,
    ensures
        r == (a * b > limit * d),
{
    proof {
        let (x, e) = (a * b, d as int);
        vstd::arithmetic::div_mod::lemma_fundamental_div_mod(x, e);
        vstd::arithmetic::div_mod::lemma_mod_bound(x, e);
        let (q, m) = (x / e, limit as int);
        assert(q > m ==> e * q >= e * m + e) by (nonlinear_arith)
            requires
                e > 0,
        ;
        assert(q < m ==> e * q + e <= e * m) by (nonlinear_arith)
            requires
                e > 0,
        ;
        assert(m * e == e * m) by (nonlinear_arith);
    }
    match mul_div_rem(a, b, d) {
        Some((q, rem)) => q > limit || (q == limit && rem > 0),
        None => true,
    }
}

} // verus!
