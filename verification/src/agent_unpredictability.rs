//! Agent unpredictability: classifying the behavioural regime of an agent.

use vstd::prelude::*;

verus! {

/// Classification of agent behavioral regime.
#[derive(Debug, Clone, Copy, PartialEq, Eq, Structural)]
pub enum BehavioralRegime {
    FixedPoint,
    Periodic,
    Quasiperiodic,
    Chaotic,
    Unknown,
}

/// Decide the behavioural regime of a time series from its summary tests:
/// whether its variance is negligible, whether it is chaotic (positive
/// Lyapunov exponent), whether its lag-1 autocorrelation is strong or weak,
/// and whether its values spread over a range at all.
pub fn classify_regime(
    negligible_variance: bool,
    chaotic: bool,
    strongly_correlated: bool,
    weakly_correlated: bool,
    spread: bool,
) -> (r: BehavioralRegime)
    ensures
        negligible_variance ==> r == BehavioralRegime::FixedPoint,
        !negligible_variance && !chaotic && strongly_correlated ==> r == BehavioralRegime::Periodic,
        !negligible_variance && chaotic ==> r == BehavioralRegime::Chaotic,
        !negligible_variance && !chaotic && !strongly_correlated && weakly_correlated && spread
            ==> r == BehavioralRegime::Quasiperiodic,
        !negligible_variance && !chaotic && !strongly_correlated && !(weakly_correlated && spread)
            ==> r == BehavioralRegime::Unknown,
{
    if negligible_variance {
        BehavioralRegime::FixedPoint
    } else if !chaotic && strongly_correlated {
        BehavioralRegime::Periodic
    } else if chaotic {
        BehavioralRegime::Chaotic
    } else if weakly_correlated && spread {
        BehavioralRegime::Quasiperiodic
    } else {
        BehavioralRegime::Unknown
    }
}

} // verus!
