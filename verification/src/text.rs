//! Selections and errors in words.
use crate::coin_selector::CoinSelector;
use crate::errors::{InsufficientFunds, NoBnbSolution, SelectError};
use crate::mempool::ClusterError;
use crate::model::SelectionState;
use vstd::prelude::*;
use vstd::string::StringExecFns;

verus! {

/// A digit.
pub open spec fn digit(d: int) -> Seq<char> {
    if d == 0 {
        "0"@
    } else if d == 1 {
        "1"@
    } else if d == 2 {
        "2"@
    } else if d == 3 {
        "3"@
    } else if d == 4 {
        "4"@
    } else if d == 5 {
        "5"@
    } else if d == 6 {
        "6"@
    } else if d == 7 {
        "7"@
    } else if d == 8 {
        "8"@
    } else {
        "9"@
    }
}

/// A number in decimal, without leading zeros.
pub open spec fn decimal(n: int) -> Seq<char>
    decreases n,
{
    if n < 10 {
        digit(n)
    } else {
        decimal(n / 10) + digit(n % 10)
    }
}

/// Appends a number in decimal.
fn append_decimal(out: &mut String, n: u64)
    ensures
        final(out)@ == old(out)@ + decimal(n as int),
    decreases n,
{
    let ghost before = out@;
    if n >= 10 {
        append_decimal(out, n / 10);
    }
    let d: u64 = n % 10;
    let digit: &str = if d == 0 {
        "0"
    } else if d == 1 {
        "1"
    } else if d == 2 {
        "2"
    } else if d == 3 {
        "3"
    } else if d == 4 {
        "4"
    } else if d == 5 {
        "5"
    } else if d == 6 {
        "6"
    } else if d == 7 {
        "7"
    } else if d == 8 {
        "8"
    } else {
        "9"
    };
    out.append(digit);
    proof {
        assert(out@ =~= before + decimal(n as int));
    }
}

impl SelectionState {
    /// How candidate `c` is marked.
    pub open spec fn mark(self, c: int) -> Seq<char> {
        if self.selected[c] {
            "✔"@
        } else if self.banned[c] {
            "✘"@
        } else {
            "☐"@
        }
    }

    /// The first `k` candidates in the order in which they are taken, each with its mark.
    pub open spec fn marked(self, k: int) -> Seq<char>
        decreases k,
    {
        if k <= 0 {
            "["@
        } else {
            self.marked(k - 1) + decimal(self.order[k - 1] as int) + self.mark(
                self.order[k - 1] as int,
            ) + (if k < self.order.len() {
                ", "@
            } else {
                Seq::empty()
            })
        }
    }
}

impl<'a> CoinSelector<'a> {
    /// The candidates in the order in which they are taken, each with a mark that tells whether it
    /// is selected, banned or neither.
    pub fn describe(&self) -> (text: String)
        requires
            self.inv(),
        ensures
            text@ == self@.marked(self@.problem.n()) + "]"@,
    {
        proof {
            self.inv_wf();
        }
        let ghost state = self@;
        let order: &[usize] = self.candidate_order();
        let mut text: String = String::from_str("[");
        let mut k: usize = 0;
        while k < order.len()
            invariant
                self.inv(),
                state == self@,
                state.wf(),
                order@ == state.order,
                k <= order@.len(),
                text@ == state.marked(k as int),
            decreases order@.len() - k,
        {
            let index: usize = order[k];
            assert(state.order[k as int] < state.problem.n());
            append_decimal(&mut text, index as u64);
            if self.is_selected(index) {
                text.append("✔");
            } else if self.banned().contains(index) {
                text.append("✘");
            } else {
                text.append("☐");
            }
            if k + 1 < order.len() {
                text.append(", ");
            }
            proof {
                assert(text@ =~= state.marked(k + 1));
            }
            k = k + 1;
        }
        text.append("]");
        text
    }
}

impl InsufficientFunds {
    /// What went wrong, in words.
    pub open spec fn spec_message(self) -> Seq<char> {
        "Insufficient funds. Missing "@ + decimal(self.missing as int) + " sats."@
    }

    /// What went wrong, in words.
    pub fn message(&self) -> (text: String)
        ensures
            text@ == self.spec_message(),
    {
        let mut text: String = String::from_str("Insufficient funds. Missing ");
        append_decimal(&mut text, self.missing);
        text.append(" sats.");
        text
    }
}

impl SelectError {
    /// What went wrong, in words.
    pub fn message(&self) -> (text: String)
        ensures
            text@ == match *self {
                SelectError::InsufficientFunds(e) => e.spec_message(),
                SelectError::MaxWeightExceeded =>
                    "Selection meets the target value but exceeds `max_weight`."@,
            },
    {
        match self {
            SelectError::InsufficientFunds(e) => e.message(),
            SelectError::MaxWeightExceeded => String::from_str(
                "Selection meets the target value but exceeds `max_weight`.",
            ),
        }
    }
}

impl NoBnbSolution {
    /// What went wrong, in words.
    pub fn message(&self) -> (text: String)
        ensures
            text@ == match *self {
                NoBnbSolution::InsufficientFunds =>
                    "no bnb solution: candidates cannot cover the target value"@,
                NoBnbSolution::MaxWeightExceeded =>
                    "no bnb solution: no selection meets the target within max_weight"@,
                NoBnbSolution::RoundLimit { max_rounds, rounds } =>
                    "no bnb solution found after "@ + decimal(rounds as int)
                    + " rounds (max rounds is "@ + decimal(max_rounds as int) + ")"@,
            },
    {
        match self {
            NoBnbSolution::InsufficientFunds => String::from_str(
                "no bnb solution: candidates cannot cover the target value",
            ),
            NoBnbSolution::MaxWeightExceeded => String::from_str(
                "no bnb solution: no selection meets the target within max_weight",
            ),
            NoBnbSolution::RoundLimit { max_rounds, rounds } => {
                let mut text: String = String::from_str("no bnb solution found after ");
                append_decimal(&mut text, *rounds as u64);
                text.append(" rounds (max rounds is ");
                append_decimal(&mut text, *max_rounds as u64);
                text.append(")");
                text
            },
        }
    }
}

impl ClusterError {
    /// What went wrong, in words.
    pub fn message(&self) -> (text: String)
        ensures
            text@ == match *self {
                ClusterError::ParentOutOfBounds { tx, parent } => "transaction "@ + decimal(
                    tx as int,
                ) + " names parent "@ + decimal(parent as int) + ", which is not in the cluster"@,
                ClusterError::SpendOutOfBounds { candidate, tx } => "candidate "@ + decimal(
                    candidate as int,
                ) + " spends transaction "@ + decimal(tx as int)
                    + ", which is not in the cluster"@,
                ClusterError::Cycle { tx } => "the parent relation cycles through transaction "@
                    + decimal(tx as int),
            },
    {
        match self {
            ClusterError::ParentOutOfBounds { tx, parent } => {
                let mut text: String = String::from_str("transaction ");
                append_decimal(&mut text, *tx as u64);
                text.append(" names parent ");
                append_decimal(&mut text, *parent as u64);
                text.append(", which is not in the cluster");
                text
            },
            ClusterError::SpendOutOfBounds { candidate, tx } => {
                let mut text: String = String::from_str("candidate ");
                append_decimal(&mut text, *candidate as u64);
                text.append(" spends transaction ");
                append_decimal(&mut text, *tx as u64);
                text.append(", which is not in the cluster");
                text
            },
            ClusterError::Cycle { tx } => {
                let mut text: String = String::from_str(
                    "the parent relation cycles through transaction ",
                );
                append_decimal(&mut text, *tx as u64);
                text
            },
        }
    }
}

} // verus!
