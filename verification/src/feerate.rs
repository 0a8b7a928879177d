//! Feerates, held as a whole number of satoshis per 1000 vbytes.
use core::ops::{Add, Sub};
use vstd::prelude::*;
use vstd::std_specs::ops::{AddSpec, AddSpecImpl, SubSpec, SubSpecImpl};

verus! {

/// Weight units per 1000 vbytes.
pub const WU_PER_KVB: u128 = 4000;

/// Vbytes per 1000 vbytes.
pub const VB_PER_KVB: u128 = 1000;

/// A feerate.
///
/// It is an exact integer, so that the fees derived from it are exact too: whether a selection is
/// funded turns on single satoshis.
#[derive(Debug, Copy, Clone, PartialEq, Eq, PartialOrd, Ord, Structural)]
pub struct FeeRate(u64);

/// `n / d` rounded up.
pub open spec fn ceil(n: int, d: int) -> int {
    (n + (d - 1)) / d
}

/// The `u64` closest to a number that is not negative.
pub open spec fn saturated(n: int) -> u64 {
    if n > u64::MAX {
        u64::MAX
    } else {
        n as u64
    }
}

/// `ceil(numerator / denominator)`, saturating at `u64::MAX` instead of wrapping.
pub(crate) fn ceil_div(numerator: u128, denominator: u128) -> (r: u64)
    requires
        denominator > 0,
        numerator + denominator <= u128::MAX,
    ensures
        r == saturated(ceil(numerator as int, denominator as int)),
{
    let ceiled: u128 = (numerator + (denominator - 1)) / denominator;
    if ceiled > u64::MAX as u128 {
        u64::MAX
    } else {
        ceiled as u64
    }
}

impl View for FeeRate {
    type V = u64;

    /// Satoshis per 1000 vbytes.
    closed spec fn view(&self) -> u64 {
        self.0
    }
}

impl FeeRate {
    /// The fee owed for `weight` when the rate is applied to whole vbytes, rounded up.
    pub open spec fn fee(self, weight: int) -> int {
        ceil(ceil(weight, 4) * self@, 1000)
    }

    /// The fee owed for `weight` when the rate is applied to the weight directly.
    pub open spec fn fee_wu(self, weight: int) -> int {
        ceil(weight * self@, 4000)
    }

    /// A feerate of zero.
    pub fn zero() -> (r: Self)
        ensures
            r@ == 0,
    {
        FeeRate(0)
    }

    /// The default minimum relay feerate (1 sat per vbyte). Most nodes of the network forward no
    /// transaction that pays less.
    pub fn default_min_relay_fee() -> (r: Self)
        ensures
            r@ == 1_000,
    {
        FeeRate(1_000)
    }

    /// The default incremental relay feerate (1 sat per vbyte), which a replacement pays over the
    /// fee of what it replaces.
    pub fn default_rbf_incremental_relay() -> (r: Self)
        ensures
            r@ == 1_000,
    {
        FeeRate(1_000)
    }

    /// The feerate of so many satoshis per 1000 vbytes.
    pub fn from_sat_per_kvb(sat_per_kvb: u64) -> (r: Self)
        ensures
            r@ == sat_per_kvb,
    {
        FeeRate(sat_per_kvb)
    }

    /// The feerate of `fee` for `wu` weight units, rounded down. It wraps where the rate needs more
    /// than 64 bits.
    pub fn from_wu(fee: u64, wu: usize) -> (r: Self)
        requires
            wu > 0,
        ensures
            r@ == ((fee * 4000) / (wu as int)) as u64,
    {
        FeeRate(((fee as u128 * WU_PER_KVB) / wu as u128) as u64)
    }

    /// The feerate of `fee` for `vbytes`, rounded down. It wraps where the rate needs more than 64
    /// bits.
    pub fn from_vb(fee: u64, vbytes: usize) -> (r: Self)
        requires
            vbytes > 0,
        ensures
            r@ == ((fee * 1000) / (vbytes as int)) as u64,
    {
        FeeRate(((fee as u128 * VB_PER_KVB) / vbytes as u128) as u64)
    }

    /// The value as satoshis per 1000 vbytes, which is the exact representation.
    pub fn sat_per_kvb(&self) -> (r: u64)
        ensures
            r == self@,
    {
        self.0
    }

    /// The fee that a transaction of weight `tx_weight` should pay to satisfy this feerate, where
    /// the rate is applied to the rounded-up vbytes obtained from `tx_weight`.
    pub fn implied_fee(&self, tx_weight: u64) -> (fee: u64)
        ensures
            fee == saturated(self.fee(tx_weight as int)),
    {
        let vbytes: u128 = (tx_weight as u128 + 3) / 4;
        proof {
            let rate = self.0;
            assert(vbytes * rate <= 0x4000_0000_0000_0000 * 0xffff_ffff_ffff_ffff) by (nonlinear_arith)
                requires
                    0 <= vbytes <= 0x4000_0000_0000_0000,
                    0 <= rate <= 0xffff_ffff_ffff_ffff,
            ;
        }
        ceil_div(vbytes * self.0 as u128, VB_PER_KVB)
    }

    /// The fee that this feerate asks for `tx_weight` when it is applied to the weight directly.
    pub fn implied_fee_wu(&self, tx_weight: u64) -> (fee: u64)
        ensures
            fee == saturated(self.fee_wu(tx_weight as int)),
    {
        proof {
            let rate = self.0;
            assert(tx_weight * rate <= 0xffff_ffff_ffff_ffff * 0xffff_ffff_ffff_ffff) by (nonlinear_arith)
                requires
                    0 <= tx_weight <= 0xffff_ffff_ffff_ffff,
                    0 <= rate <= 0xffff_ffff_ffff_ffff,
            ;
        }
        ceil_div(tx_weight as u128 * self.0 as u128, WU_PER_KVB)
    }

    /// Rates of the same number of satoshis per 1000 vbytes are the same.
    pub proof fn same_rate(self, other: FeeRate)
        requires
            self@ == other@,
        ensures
            self == other,
    {
    }

    /// Feerates add up to the highest one at most, and leave nothing at least.
    pub proof fn rates_add_and_leave(self, other: FeeRate)
        ensures
            self@ + other@ <= u64::MAX ==> AddSpec::add_spec(self, other)@ == self@ + other@,
            self@ + other@ > u64::MAX ==> AddSpec::add_spec(self, other)@ == u64::MAX,
            self@ >= other@ ==> SubSpec::sub_spec(self, other)@ == self@ - other@,
            self@ < other@ ==> SubSpec::sub_spec(self, other)@ == 0,
    {
    }

    /// Heavier weights never owe less.
    pub proof fn fee_monotone(self, lighter: int, heavier: int)
        requires
            lighter <= heavier,
        ensures
            self.fee(lighter) <= self.fee(heavier),
            self.fee_wu(lighter) <= self.fee_wu(heavier),
    {
        let rate = self@ as int;
        let (v, w) = (ceil(lighter, 4), ceil(heavier, 4));
        assert(v * rate <= w * rate) by (nonlinear_arith)
            requires
                v <= w,
                0 <= rate,
        ;
        assert(lighter * rate <= heavier * rate) by (nonlinear_arith)
            requires
                lighter <= heavier,
                0 <= rate,
        ;
    }

    /// Charging whole vbytes never asks less than charging weight units, and both are whole
    /// numbers of satoshis that are not negative. A weight of zero owes nothing.
    pub proof fn fee_wu_at_most_fee(self, weight: int)
        requires
            weight >= 0,
        ensures
            0 <= self.fee_wu(weight) <= self.fee(weight),
            weight == 0 ==> self.fee(weight) == 0,
    {
        let rate = self@ as int;
        let v = ceil(weight, 4);
        assert(weight * rate <= 4 * (v * rate)) by (nonlinear_arith)
            requires
                weight <= 4 * v,
                0 <= rate,
        ;
        assert(0 <= weight * rate) by (nonlinear_arith)
            requires
                0 <= weight,
                0 <= rate,
        ;
        assert(v == 0 ==> v * rate == 0) by (nonlinear_arith);
    }

    /// The fee on a weight is the least whole number of satoshis that pays the rate for it.
    pub proof fn fee_is_exact(self, weight: int, paid: int)
        ensures
            paid >= self.fee_wu(weight) <==> paid * 4000 >= weight * self@,
            paid >= self.fee(weight) <==> paid * 1000 >= ceil(weight, 4) * self@,
    {
    }

    /// The fee on two weights together is at most the sum of the fees on each, and falls short of
    /// that sum by at most one satoshi.
    pub proof fn fee_wu_of_sum(self, a: int, b: int)
        ensures
            self.fee_wu(a + b) <= self.fee_wu(a) + self.fee_wu(b) <= self.fee_wu(a + b) + 1,
    {
        let rate = self@ as int;
        assert((a + b) * rate == a * rate + b * rate) by (nonlinear_arith);
    }

    /// The fee on two weights together is at most the sum of the fees on each.
    pub proof fn fee_of_sum(self, a: int, b: int)
        ensures
            self.fee(a + b) <= self.fee(a) + self.fee(b),
    {
        let rate = self@ as int;
        let (u, v, w) = (ceil(a, 4), ceil(b, 4), ceil(a + b, 4));
        assert(w * rate <= u * rate + v * rate) by (nonlinear_arith)
            requires
                w <= u + v,
                0 <= rate,
        ;
    }
}

impl AddSpecImpl<FeeRate> for FeeRate {
    open spec fn obeys_add_spec() -> bool {
        true
    }

    open spec fn add_req(self, rhs: FeeRate) -> bool {
        true
    }

    closed spec fn add_spec(self, rhs: FeeRate) -> FeeRate {
        FeeRate(saturated(self.0 + rhs.0))
    }
}

impl Add<FeeRate> for FeeRate {
    type Output = FeeRate;

    /// Saturates at the highest feerate.
    fn add(self, rhs: FeeRate) -> (r: FeeRate)
        ensures
            r@ == saturated(self@ + rhs@),
    {
        FeeRate(self.0.saturating_add(rhs.0))
    }
}

impl SubSpecImpl<FeeRate> for FeeRate {
    open spec fn obeys_sub_spec() -> bool {
        true
    }

    open spec fn sub_req(self, rhs: FeeRate) -> bool {
        true
    }

    closed spec fn sub_spec(self, rhs: FeeRate) -> FeeRate {
        FeeRate(if self.0 < rhs.0 { 0 } else { (self.0 - rhs.0) as u64 })
    }
}

impl Sub<FeeRate> for FeeRate {
    type Output = FeeRate;

    /// Saturates at zero: a negative feerate is not representable.
    fn sub(self, rhs: FeeRate) -> (r: FeeRate)
        ensures
            r@ == (if self@ < rhs@ { 0 } else { self@ - rhs@ }),
    {
        FeeRate(self.0.saturating_sub(rhs.0))
    }
}

} // verus!
