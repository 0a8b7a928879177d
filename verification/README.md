# bdk_coin_select

Coin selection for Bitcoin transactions, written and proved in [Verus](https://github.com/verus-lang/verus).

A `SelectionProblem` holds what is to be funded (`Target`), the candidates to fund it from, and the
unconfirmed ancestors that spending a candidate drags in. A `CoinSelector` selects candidates by
hand, in order (`select_until_target_met`), at random (`select_srd`) or by branch and bound
(`run_bnb`) with a metric such as `metrics::LowestFee`. `BumpTable` prices clusters of unconfirmed
transactions.

- `src/model.rs` is the mathematical model that all contracts speak of: a problem, a selection, and
  what the one owes for the other. `src/facts.rs` and `src/sums.rs` hold its arithmetic.
- `src/laws.rs`, `src/cluster_laws.rs`, `src/feerate.rs`, `src/metrics/lowest_fee_bounds.rs`,
  `src/metrics/greedy_bound.rs`, `src/metrics/exact_bounds.rs`, `src/metrics/near_bounds.rs` and
  `src/metrics/changeless_bounds.rs` state and prove what holds of the library as a whole.
- `src/bnb.rs`, `src/search.rs` and `src/bnb_iter.rs` are branch and bound: what each round does, and
  the proof that a search with an admissible bound that runs to its end finds the optimum.
- `app/` holds what is computed in floating point, and what `std`'s traits are needed for.

Amounts are exact integers throughout. `SelectionProblem::sums_fit`, `SelectionProblem::fits` and a
metric's `can_measure` tell whether the amounts of a problem can be represented, which the functions
that compute with them require.
