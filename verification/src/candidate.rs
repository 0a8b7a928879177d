//! Inputs that can be selected.
use crate::feerate::FeeRate;
use crate::weights::{TR_KEYSPEND_SATISFACTION_WEIGHT, TXIN_BASE_WEIGHT};
use vstd::prelude::*;

verus! {

/// An input that can be selected.
///
/// This can be a single UTXO, or a group of UTXOs that should be spent together. A group may mix
/// legacy and segwit inputs.
#[derive(Debug, Clone, Copy, PartialEq, Eq, Structural)]
pub struct Candidate {
    /// Total value of the UTXOs.
    pub value: u64,
    /// Total weight of spending the UTXOs: outpoint, sequence, script signature and witness with
    /// their lengths.
    ///
    /// For legacy inputs this leaves out the byte of the witness length: a legacy input serializes
    /// an empty witness only once some selected input is segwit, and the input weight of a
    /// selection adds that weight unit then.
    pub weight: u64,
    /// Number of segwit inputs.
    pub segwit_count: usize,
    /// Number of legacy (non-segwit) inputs.
    pub legacy_count: usize,
}

impl Candidate {
    /// A candidate that spends a single taproot output by its key.
    pub fn new_tr_keyspend(value: u64) -> (r: Self)
        ensures
            r.value == value,
            r.weight == TXIN_BASE_WEIGHT + TR_KEYSPEND_SATISFACTION_WEIGHT,
            r.segwit_count == 1,
            r.legacy_count == 0,
    {
        Self::new_segwit(value, TR_KEYSPEND_SATISFACTION_WEIGHT)
    }

    /// A single segwit input. `satisfaction_weight` is what satisfying it weighs beyond
    /// [`TXIN_BASE_WEIGHT`].
    pub fn new_segwit(value: u64, satisfaction_weight: u64) -> (r: Candidate)
        requires
            TXIN_BASE_WEIGHT + satisfaction_weight <= u64::MAX,
        ensures
            r.value == value,
            r.weight == TXIN_BASE_WEIGHT + satisfaction_weight,
            r.segwit_count == 1,
            r.legacy_count == 0,
    {
        let weight: u64 = TXIN_BASE_WEIGHT + satisfaction_weight;
        Candidate { value, weight, segwit_count: 1, legacy_count: 0 }
    }

    /// A single legacy (non-segwit) input. `satisfaction_weight` is what satisfying it weighs
    /// beyond [`TXIN_BASE_WEIGHT`].
    pub fn new_legacy(value: u64, satisfaction_weight: u64) -> (r: Candidate)
        requires
            TXIN_BASE_WEIGHT + satisfaction_weight <= u64::MAX,
        ensures
            r.value == value,
            r.weight == TXIN_BASE_WEIGHT + satisfaction_weight,
            r.segwit_count == 0,
            r.legacy_count == 1,
    {
        let weight: u64 = TXIN_BASE_WEIGHT + satisfaction_weight;
        Candidate { value, weight, segwit_count: 0, legacy_count: 1 }
    }

    /// Whether the candidate is worth more than its weight costs at `feerate`.
    pub open spec fn effective_at(self, feerate: FeeRate) -> bool {
        self.value * 4000 > self.weight * feerate@
    }

    /// Whether the candidate provides more value than it takes to pay for at `feerate`.
    pub fn is_effective(&self, feerate: FeeRate) -> (r: bool)
        ensures
            r == self.effective_at(feerate),
    {
        proof {
            let (weight, rate) = (self.weight, feerate@);
            assert(0 <= weight * rate <= 0xffff_ffff_ffff_ffff * 0xffff_ffff_ffff_ffff)
                by (nonlinear_arith)
                requires
                    0 <= weight <= 0xffff_ffff_ffff_ffff,
                    0 <= rate <= 0xffff_ffff_ffff_ffff,
            ;
        }
        self.value as u128 * 4000 > self.weight as u128 * feerate.sat_per_kvb() as u128
    }

    /// Whether `a` holds strictly more value per weight unit than `b`. Value without weight ranks
    /// above everything else.
    pub open spec fn denser(a: Candidate, b: Candidate) -> bool {
        if a.weight == 0 || b.weight == 0 {
            a.weight == 0 && b.weight != 0
        } else {
            a.value * b.weight > b.value * a.weight
        }
    }

    /// Whether `a` comes before `b` by descending value per weight unit, ties broken by descending
    /// value.
    pub open spec fn ranks_before(a: Candidate, b: Candidate) -> bool {
        ||| Self::denser(a, b)
        ||| !Self::denser(b, a) && a.value > b.value
    }

    /// Whether this candidate comes before `other` by descending value per weight unit, ties
    /// broken by descending value.
    pub fn is_ranked_before(&self, other: &Candidate) -> (r: bool)
        ensures
            r == Self::ranks_before(*self, *other),
    {
        proof {
            let (v, w) = (self.value, self.weight);
            let (x, y) = (other.value, other.weight);
            assert(0 <= v * y <= 0xffff_ffff_ffff_ffff * 0xffff_ffff_ffff_ffff) by (nonlinear_arith)
                requires
                    0 <= v <= 0xffff_ffff_ffff_ffff,
                    0 <= y <= 0xffff_ffff_ffff_ffff,
            ;
            assert(0 <= x * w <= 0xffff_ffff_ffff_ffff * 0xffff_ffff_ffff_ffff) by (nonlinear_arith)
                requires
                    0 <= x <= 0xffff_ffff_ffff_ffff,
                    0 <= w <= 0xffff_ffff_ffff_ffff,
            ;
        }
        if self.weight == 0 || other.weight == 0 {
            if self.weight == 0 && other.weight == 0 {
                self.value > other.value
            } else {
                self.weight == 0
            }
        } else {
            let mine: u128 = self.value as u128 * other.weight as u128;
            let theirs: u128 = other.value as u128 * self.weight as u128;
            mine > theirs || (mine == theirs && self.value > other.value)
        }
    }
}

} // verus!
