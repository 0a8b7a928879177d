//! Solutions without change.
use crate::bnb::{BnbMetric, MetricModel, Score};
use crate::drain::Drain;
use crate::model::{ProblemView, SelectionState};
use crate::selection_view::SelectionView;
use vstd::prelude::*;

verus! {

/// Constrains an inner metric to changeless solutions.
///
/// A selection is scored by the inner metric only if that decides that it should *not* have change;
/// otherwise it is invalid.
#[derive(Clone, Copy, Debug)]
pub struct Changeless<M>(
    /// The inner metric, which scores changeless solutions and decides on change.
    pub M,
);

/// What a metric computes when it is constrained to changeless solutions.
pub open spec fn changeless_model(inner: MetricModel) -> MetricModel {
    MetricModel {
        score: |p: ProblemView, s: Seq<bool>|
            if (inner.drain)(p, s) == Drain::spec_none() {
                (inner.score)(p, s)
            } else {
                None
            },
        bound: inner.bound,
        drain: |p: ProblemView, s: Seq<bool>| Drain::spec_none(),
        accepts: inner.accepts,
    }
}

impl<M: BnbMetric> BnbMetric for Changeless<M> {
    open spec fn model(&self) -> MetricModel {
        changeless_model(self.0.model())
    }

    fn drain(&mut self, _cs: &SelectionView<'_>) -> (r: Drain)
        ensures
            *final(self) == *old(self),
    {
        // A changeless selection never has a change output.
        Drain::none()
    }

    fn score(&mut self, cs: &SelectionView<'_>) -> (r: Option<Score>) {
        if self.0.drain(cs).is_some() {
            return None;
        }
        self.0.score(cs)
    }

    fn bound(&mut self, cs: &SelectionView<'_>) -> (r: Option<Score>) {
        // The best changeless solution is no better than the best solution.
        self.0.bound(cs)
    }

    fn requires_ordering_by_descending_value_pwu(&self) -> (r: bool)
        ensures
            call_ensures(M::requires_ordering_by_descending_value_pwu, (&self.0,), r),
    {
        self.0.requires_ordering_by_descending_value_pwu()
    }

    fn deduplicate_equivalent_candidates(&self) -> (r: bool)
        ensures
            call_ensures(M::deduplicate_equivalent_candidates, (&self.0,), r),
    {
        self.0.deduplicate_equivalent_candidates()
    }
}

/// A bound that holds for all solutions holds for the changeless ones.
pub proof fn changeless_is_admissible(inner: MetricModel, root: SelectionState)
    requires
        inner.admissible(root),
    ensures
        changeless_model(inner).admissible(root),
{
    let outer = changeless_model(inner);
    assert forall|s: SelectionState, t: Seq<bool>|
        #![trigger s.extended_by(t), (outer.bound)(s)]
        root.reaches(s) && s.extended_by(t) && (outer.score)(root.problem, t) is Some implies {
        &&& (outer.bound)(s) is Some
        &&& (outer.bound)(s)->0 <= (outer.score)(root.problem, t)->0
    } by {
        assert((inner.score)(root.problem, t) is Some);
        assert((inner.bound)(s) is Some);
    }
}

} // verus!
