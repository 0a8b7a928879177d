//! Whether the amounts of a problem fit the integers that hold them.
use crate::drain::Drain;
use crate::selection_problem::SelectionProblem;
use crate::sums;
use crate::weights;
use crate::weights::{varint_size, TX_FIXED_FIELD_WEIGHT};
use vstd::prelude::*;

verus! {

/// Whether `held` is the number where it fits 64 bits, and nothing where it does not.
pub open spec fn is_held(held: Option<u64>, exact: int) -> bool {
    match held {
        Some(x) => x == exact,
        None => exact > u64::MAX,
    }
}

/// Adds a term to a sum that may have outgrown 64 bits.
fn plus(held: Option<u64>, term: u64) -> (r: Option<u64>)
    ensures
        match held {
            Some(x) => is_held(r, x + term),
            None => r is None,
        },
{
    match held {
        Some(x) => x.checked_add(term),
        None => None,
    }
}

impl SelectionProblem {
    /// The summed value, weight and numbers of segwit and legacy inputs of all candidates, where
    /// they fit.
    fn totals(&self) -> (r: (Option<u64>, Option<u64>, Option<u64>, Option<u64>))
        ensures
            is_held(r.0, self@.value_of(self@.everything())),
            is_held(r.1, self@.weight_of(self@.everything())),
            is_held(r.2, self@.segwit_of(self@.everything())),
            is_held(r.3, self@.legacy_of(self@.everything())),
    {
        let ghost p = self@;
        let ghost all = p.everything();
        let ghost value_at = |c: int| p.candidates[c].value as int;
        let ghost weight_at = |c: int| p.candidates[c].weight as int;
        let ghost segwit_at = |c: int| p.candidates[c].segwit_count as int;
        let ghost legacy_at = |c: int| p.candidates[c].legacy_count as int;
        let mut value: Option<u64> = Some(0);
        let mut weight: Option<u64> = Some(0);
        let mut segwit: Option<u64> = Some(0);
        let mut legacy: Option<u64> = Some(0);
        let n: usize = self.len();
        let mut c: usize = 0;
        while c < n
            invariant
                p == self@,
                n == p.n(),
                c <= n,
                value_at == (|c: int| p.candidates[c].value as int),
                weight_at == (|c: int| p.candidates[c].weight as int),
                segwit_at == (|c: int| p.candidates[c].segwit_count as int),
                legacy_at == (|c: int| p.candidates[c].legacy_count as int),
                is_held(value, sums::sum(c as int, value_at)),
                is_held(weight, sums::sum(c as int, weight_at)),
                is_held(segwit, sums::sum(c as int, segwit_at)),
                is_held(legacy, sums::sum(c as int, legacy_at)),
            decreases n - c,
        {
            let candidate = self.candidate(c);
            value = plus(value, candidate.value);
            weight = plus(weight, candidate.weight);
            segwit = plus(segwit, candidate.segwit_count as u64);
            legacy = plus(legacy, candidate.legacy_count as u64);
            c = c + 1;
        }
        proof {
            sums::lemma_sum_ext(n as int, value_at, |c: int| if all[c] { value_at(c) } else { 0 });
            sums::lemma_sum_ext(n as int, weight_at, |c: int| if all[c] { weight_at(c) } else { 0 });
            sums::lemma_sum_ext(n as int, segwit_at, |c: int| if all[c] { segwit_at(c) } else { 0 });
            sums::lemma_sum_ext(n as int, legacy_at, |c: int| if all[c] { legacy_at(c) } else { 0 });
        }
        (value, weight, segwit, legacy)
    }

    /// The summed weight and fee of all ancestors, where they fit.
    fn ancestor_sums(&self) -> (r: (Option<u64>, Option<u64>))
        ensures
            is_held(r.0, self@.all_ancestor_weight()),
            is_held(r.1, self@.all_ancestor_fee()),
    {
        let ghost weight_at = |a: int| self@.ancestors[a].0 as int;
        let ghost fee_at = |a: int| self@.ancestors[a].1 as int;
        let ancestors: &[(u64, u64)] = self.ancestors();
        let mut weight: Option<u64> = Some(0);
        let mut fee: Option<u64> = Some(0);
        let mut a: usize = 0;
        while a < ancestors.len()
            invariant
                ancestors@ == self@.ancestors,
                a <= ancestors@.len(),
                weight_at == (|a: int| self@.ancestors[a].0 as int),
                fee_at == (|a: int| self@.ancestors[a].1 as int),
                is_held(weight, sums::sum(a as int, weight_at)),
                is_held(fee, sums::sum(a as int, fee_at)),
            decreases ancestors@.len() - a,
        {
            weight = plus(weight, ancestors[a].0);
            fee = plus(fee, ancestors[a].1);
            a = a + 1;
        }
        (weight, fee)
    }

    /// Whether the sums over any selection fit the integers that hold them, so that there can be a
    /// selector for this problem.
    pub fn sums_fit(&self) -> (r: bool)
        ensures
            r == self@.sums_fit(),
    {
        proof {
            let (p, all) = (self@, self@.everything());
            sums::lemma_over_le(all, all, |c: int| p.candidates[c].weight as int);
            sums::lemma_over_le(all, all, |c: int| p.candidates[c].segwit_count as int);
            sums::lemma_over_le(all, all, |c: int| p.candidates[c].legacy_count as int);
        }
        let few: bool = self.len() as u64 <= u32::MAX as u64 || self.ancestors().len() == 0;
        match (self.totals(), self.ancestor_sums()) {
            ((Some(_), Some(weight), Some(segwit), Some(legacy)), (Some(_), Some(_))) => {
                few && segwit as u128 + legacy as u128 <= usize::MAX as u128 && 38 + weight as u128
                    + legacy as u128 <= u64::MAX as u128
            },
            _ => false,
        }
    }

    /// Whether every amount that belongs to a selection with this drain fits a signed 64-bit
    /// integer.
    pub fn fits(&self, drain: Drain) -> (r: bool)
        requires
            self@.sums_fit(),
        ensures
            r == self@.fits(drain),
    {
        let target = self.target();
        let n_outputs: u128 = target.outputs.n_outputs as u128 + drain.weights.n_outputs as u128;
        if n_outputs > usize::MAX as u128 {
            return false;
        }
        match (self.totals(), self.ancestor_sums()) {
            ((Some(value), Some(weight), _, Some(legacy)), (Some(ancestor_weight), _)) => {
                let heaviest: u128 = TX_FIXED_FIELD_WEIGHT as u128 + 38 + weight as u128
                    + legacy as u128 + varint_size(n_outputs as usize) as u128 * 4
                    + drain.weights.output_weight as u128 + target.outputs.weight_sum as u128;
                if heaviest > u64::MAX as u128 {
                    return false;
                }
                let rate_fee: u128 = target.fee.rate.implied_fee(heaviest as u64) as u128
                    + target.fee.rate.implied_fee_wu(ancestor_weight) as u128;
                let replacement_fee: u128 = match target.fee.replace {
                    Some(replace) => replace.fee as u128
                        + replace.incremental_relay_feerate.implied_fee(heaviest as u64) as u128,
                    None => 0,
                };
                proof {
                    target.fee.rate.fee_monotone(0, heaviest as int);
                    target.fee.rate.fee_monotone(0, ancestor_weight as int);
                    if let Some(replace) = target.fee.replace {
                        replace.incremental_relay_feerate.fee_monotone(0, heaviest as int);
                    }
                }
                let others: u128 = target.outputs.value_sum as u128 + drain.value as u128;
                let limit: u128 = i64::MAX as u128;
                value as u128 <= limit && others + rate_fee <= limit && others
                    + target.fee.absolute as u128 <= limit && others + replacement_fee <= limit
            },
            _ => {
                proof {
                    let (p, all) = (self@, self@.everything());
                    sums::lemma_over_le(all, all, |c: int| p.candidates[c].weight as int);
                    sums::lemma_over_le(all, all, |c: int| p.candidates[c].legacy_count as int);
                }
                false
            },
        }
    }
}

} // verus!
