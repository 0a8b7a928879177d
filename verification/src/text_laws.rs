//! What texts say.
use crate::coin_selector::CoinSelector;
use crate::errors::InsufficientFunds;
use crate::model::SelectionState;
use crate::text;
use vstd::prelude::*;

verus! {

/// The number that digits stand for.
pub open spec fn read(digits: Seq<char>) -> int
    decreases digits.len(),
{
    if digits.len() == 0 {
        0
    } else {
        10 * read(digits.drop_last()) + (digits.last() as int - '0' as int)
    }
}

/// A number is written with digits only, without leading zeros, and can be read back.
pub proof fn decimals_read_back(n: int)
    requires
        0 <= n,
    ensures
        read(text::decimal(n)) == n,
        text::decimal(n).len() > 0,
        forall|i: int|
            0 <= i < text::decimal(n).len() ==> '0' as int <= #[trigger] text::decimal(n)[i] as int
                <= '9' as int,
        n > 0 ==> text::decimal(n)[0] != '0',
    decreases n,
{
    digits_read_back(n % 10);
    let last = text::digit(n % 10);
    if n < 10 {
        assert(last.drop_last() =~= Seq::<char>::empty());
        reveal_with_fuel(read, 2);
    } else {
        decimals_read_back(n / 10);
        let more = text::decimal(n / 10);
        assert((more + last).drop_last() =~= more);
        assert((more + last).last() == last[0]);
    }
}

proof fn digits_read_back(d: int)
    requires
        0 <= d < 10,
    ensures
        text::digit(d).len() == 1,
        text::digit(d)[0] as int == '0' as int + d,
{
    reveal_strlit("0");
    reveal_strlit("1");
    reveal_strlit("2");
    reveal_strlit("3");
    reveal_strlit("4");
    reveal_strlit("5");
    reveal_strlit("6");
    reveal_strlit("7");
    reveal_strlit("8");
    reveal_strlit("9");
}

impl SelectionState {
    /// One candidate more is described by its index and a mark that tells whether it is selected,
    /// banned or neither, with a comma where another one follows.
    pub proof fn descriptions_name_each_candidate(self, k: int)
        requires
            0 <= k < self.order.len(),
        ensures
            ({
                let c = self.order[k] as int;
                let mark = if self.selected[c] {
                    "✔"@
                } else if self.banned[c] {
                    "✘"@
                } else {
                    "☐"@
                };
                let comma = if k + 1 == self.order.len() {
                    Seq::<char>::empty()
                } else {
                    ", "@
                };
                self.marked(k + 1) == self.marked(k) + text::decimal(c) + mark + comma
            }),
            self.marked(0) == "["@,
    {
    }
}

/// A description is closed after the last candidate, and a lack of funds is told with what is
/// missing.
pub proof fn texts_say_what_they_are_about<'a>(
    cs: &CoinSelector<'a>,
    described: String,
    missing: u64,
    told: String,
)
    requires
        call_ensures(CoinSelector::<'a>::describe, (cs,), described),
        call_ensures(InsufficientFunds::message, (&InsufficientFunds { missing },), told),
    ensures
        described@ == cs@.marked(cs@.problem.n()) + "]"@,
        told@ == "Insufficient funds. Missing "@ + text::decimal(missing as int) + " sats."@,
{
}

} // verus!
