//! Choice of the evaluation strategy for the partial likelihood.

use vstd::prelude::*;

verus! {

/// How the risk sets are swept when the likelihood is evaluated.
#[derive(Clone, Copy, Debug, PartialEq, Eq, Structural)]
pub enum LikelihoodMode {
    /// Time-dependent effects: every event time rebuilds its risk set.
    General,
    /// Delayed entry without time-dependent effects: rows enter and leave
    /// the running risk set as the event times go down.
    IntervalFast,
    /// Every row is at risk from the start: the risk set only grows as the
    /// event times go down.
    Fast,
}

/// The evaluation strategy for `ntde` time-dependent effects, where
/// `entries_precede_exits` says whether the latest entry time lies before
/// the earliest exit time.
pub fn likelihood_mode(ntde: usize, entries_precede_exits: bool) -> (mode: LikelihoodMode)
    ensures
        ntde != 0 ==> mode == LikelihoodMode::General,
        ntde == 0 && entries_precede_exits ==> mode == LikelihoodMode::Fast,
        ntde == 0 && !entries_precede_exits ==> mode == LikelihoodMode::IntervalFast,
{
    if ntde == 0 && entries_precede_exits {
        LikelihoodMode::Fast
    } else if ntde == 0 {
        LikelihoodMode::IntervalFast
    } else {
        LikelihoodMode::General
    }
}

} // verus!
