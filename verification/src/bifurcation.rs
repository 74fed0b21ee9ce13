//! Bifurcation theory: the rules that detect and classify bifurcations.

use vstd::prelude::*;

verus! {

/// Type of local bifurcation.
#[derive(Debug, Clone, Copy, PartialEq, Eq, Structural)]
pub enum BifurcationType {
    SaddleNode,
    Transcritical,
    Pitchfork,
    Hopf,
    PeriodDoubling,
    Unknown,
}

/// Classify a fixed-point bifurcation of a 1D map from the tests on its
/// eigenvalue and derivatives: whether the eigenvalue is near +1, whether it
/// is near -1, whether the second derivative is small, and whether the
/// derivative with respect to the parameter is large.
pub fn classify_crossing(
    near_plus_one: bool,
    near_minus_one: bool,
    curvature_small: bool,
    drift_large: bool,
) -> (t: BifurcationType)
    ensures
        near_plus_one && curvature_small && drift_large ==> t == BifurcationType::Transcritical,
        near_plus_one && curvature_small && !drift_large ==> t == BifurcationType::SaddleNode,
        near_plus_one && !curvature_small ==> t == BifurcationType::Pitchfork,
        !near_plus_one && near_minus_one ==> t == BifurcationType::PeriodDoubling,
        !near_plus_one && !near_minus_one ==> t == BifurcationType::Unknown,
{
    if near_plus_one {
        // Eigenvalue passes through +1
        if curvature_small && drift_large {
            BifurcationType::Transcritical
        } else if curvature_small {
            BifurcationType::SaddleNode
        } else {
            BifurcationType::Pitchfork
        }
    } else if near_minus_one {
        // Eigenvalue passes through -1 => period doubling
        BifurcationType::PeriodDoubling
    } else {
        BifurcationType::Unknown
    }
}

/// The sign of the Lyapunov exponent changes between step `i - 1` and step
/// `i` of a parameter scan, both exponents being known.
pub open spec fn sign_changes_at(positive: Seq<Option<bool>>, i: int) -> bool {
    &&& 1 <= i < positive.len()
    &&& positive[i - 1] is Some
    &&& positive[i] is Some
    &&& positive[i - 1]->0 != positive[i]->0
}

/// The transitions to and from chaos along a parameter scan. `positive[i]`
/// tells whether the Lyapunov exponent at the i-th parameter value is
/// positive, `None` where it could not be computed. Entering chaos is
/// reported as a period-doubling bifurcation, leaving it as an unknown one;
/// the steps come in increasing order.
pub fn chaos_transitions(positive: &[Option<bool>]) -> (found: Vec<(usize, BifurcationType)>)
    ensures
        forall|k: int|
            0 <= k < found.len() ==> sign_changes_at(positive@, #[trigger] found@[k].0 as int)
                && found@[k].1 == (if positive@[found@[k].0 as int] == Some(true) {
                BifurcationType::PeriodDoubling
            } else {
                BifurcationType::Unknown
            }),
        forall|k: int, m: int|
            0 <= k < m < found.len() ==> #[trigger] found@[k].0 < #[trigger] found@[m].0,
        forall|i: int|
            sign_changes_at(positive@, i) ==> exists|k: int|
                0 <= k < found.len() && #[trigger] found@[k].0 == i,
        forall|i: int|
            1 <= i < positive.len() && positive@[i - 1] == Some(true) && #[trigger] positive@[i]
                == Some(false) ==> found@.contains((i as usize, BifurcationType::Unknown)),
        forall|i: int|
            1 <= i < positive.len() && positive@[i - 1] == Some(false) && #[trigger] positive@[i]
                == Some(true) ==> found@.contains((i as usize, BifurcationType::PeriodDoubling)),
        forall|k: int|
            0 <= k < found.len() ==> 1 <= #[trigger] found@[k].0 < positive.len() && ((
            positive@[found@[k].0 - 1] == Some(true) && positive@[found@[k].0 as int] == Some(false)
                && found@[k].1 == BifurcationType::Unknown) || (positive@[found@[k].0 - 1] == Some(
                false,
            ) && positive@[found@[k].0 as int] == Some(true) && found@[k].1
                == BifurcationType::PeriodDoubling)),
{
    let mut found: Vec<(usize, BifurcationType)> = Vec::new();
    let mut i: usize = 1;
    while i < positive.len()
        invariant
            1 <= i,
            i <= positive.len() || positive.len() == 0,
            forall|k: int|
                0 <= k < found.len() ==> sign_changes_at(positive@, #[trigger] found@[k].0 as int)
                    && found@[k].1 == (if positive@[found@[k].0 as int] == Some(true) {
                    BifurcationType::PeriodDoubling
                } else {
                    BifurcationType::Unknown
                }),
            forall|k: int| 0 <= k < found.len() ==> #[trigger] found@[k].0 < i,
            forall|k: int, m: int|
                0 <= k < m < found.len() ==> #[trigger] found@[k].0 < #[trigger] found@[m].0,
            forall|j: int|
                1 <= j < i && sign_changes_at(positive@, j) ==> exists|k: int|
                    0 <= k < found.len() && #[trigger] found@[k].0 == j,
        decreases positive.len() - i,
    {
        let ghost old_found = found@;
        match (positive[i - 1], positive[i]) {
            (Some(prev), Some(now)) => {
                if !prev && now {
                    // Transition into chaos
                    found.push((i, BifurcationType::PeriodDoubling));
                } else if prev && !now {
                    // Exit from chaos
                    found.push((i, BifurcationType::Unknown));
                }
            },
            _ => {},
        }
        proof {
            assert forall|j: int|
                1 <= j < i + 1 && sign_changes_at(positive@, j) implies exists|k: int|
                0 <= k < found.len() && #[trigger] found@[k].0 == j by {
                if j == i {
                    assert(found@[old_found.len() as int].0 == j);
                } else {
                    let k = choose|k: int| 0 <= k < old_found.len() && #[trigger] old_found[k].0 == j;
                    assert(found@[k].0 == j);
                }
            }
        }
        i = i + 1;
    }
    proof {
        assert forall|i: int|
            1 <= i < positive.len() && positive@[i - 1] == Some(true) && #[trigger] positive@[i]
                == Some(false) implies found@.contains((i as usize, BifurcationType::Unknown)) by {
            assert(sign_changes_at(positive@, i));
            let k = choose|k: int| 0 <= k < found.len() && #[trigger] found@[k].0 == i;
            assert(found@[k] == (i as usize, BifurcationType::Unknown));
        }
        assert forall|i: int|
            1 <= i < positive.len() && positive@[i - 1] == Some(false) && #[trigger] positive@[i]
                == Some(true) implies found@.contains((i as usize, BifurcationType::PeriodDoubling)) by {
            assert(sign_changes_at(positive@, i));
            let k = choose|k: int| 0 <= k < found.len() && #[trigger] found@[k].0 == i;
            assert(found@[k] == (i as usize, BifurcationType::PeriodDoubling));
        }
    }
    found
}

/// Whether a scan changes sign at a step depends only on the two exponents
/// on either side of it, never on the earlier part of the scan: a scan that
/// starts inside the chaotic region reports its exit from chaos like any
/// other.
pub proof fn lemma_sign_change_is_local(a: Seq<Option<bool>>, b: Seq<Option<bool>>, i: int, j: int)
    requires
        1 <= i < a.len(),
        1 <= j < b.len(),
        a[i - 1] == b[j - 1],
        a[i] == b[j],
    ensures
        sign_changes_at(a, i) == sign_changes_at(b, j),
        sign_changes_at(a, i) <==> (a[i - 1] == Some(true) && a[i] == Some(false)) || (a[i - 1]
            == Some(false) && a[i] == Some(true)),
{
}

/// A Hopf bifurcation shows at step `i` of a scan of `(complex, positive)`
/// observations: the eigenvalues at step `i` are a complex pair whose real
/// part is positive, and the real part at step `i - 1` was known not to be
/// positive.
pub open spec fn hopf_at(observations: Seq<(bool, Option<bool>)>, i: int) -> bool {
    &&& 1 <= i < observations.len()
    &&& observations[i].0
    &&& observations[i - 1].1 == Some(false)
    &&& observations[i].1 == Some(true)
}

/// The steps of a parameter scan at which a Hopf bifurcation occurs, in
/// increasing order. `observations[i]` tells, at the i-th parameter value,
/// whether the Jacobian's eigenvalues form a complex pair, and whether their
/// real part is positive (`None` where it is not a number).
pub fn hopf_indices(observations: &[(bool, Option<bool>)]) -> (steps: Vec<usize>)
    ensures
        forall|k: int| 0 <= k < steps.len() ==> hopf_at(observations@, #[trigger] steps@[k] as int),
        forall|k: int, m: int| 0 <= k < m < steps.len() ==> #[trigger] steps@[k] < #[trigger] steps@[m],
        forall|i: int| hopf_at(observations@, i) ==> steps@.contains(i as usize),
        forall|i: int|
            1 <= i < observations.len() && observations@[i].0 && observations@[i - 1].1 == Some(false)
                && #[trigger] observations@[i].1 == Some(true) ==> steps@.contains(i as usize),
        forall|k: int|
            0 <= k < steps.len() ==> 1 <= #[trigger] steps@[k] < observations.len()
                && observations@[steps@[k] as int].0 && observations@[steps@[k] - 1].1 == Some(false)
                && observations@[steps@[k] as int].1 == Some(true),
{
    let mut steps: Vec<usize> = Vec::new();
    let mut i: usize = 1;
    while i < observations.len()
        invariant
            1 <= i,
            i <= observations.len() || observations.len() == 0,
            forall|k: int| 0 <= k < steps.len() ==> hopf_at(observations@, #[trigger] steps@[k] as int),
            forall|k: int| 0 <= k < steps.len() ==> #[trigger] steps@[k] < i,
            forall|k: int, m: int| 0 <= k < m < steps.len() ==> #[trigger] steps@[k] < #[trigger] steps@[m],
            forall|j: int| 1 <= j < i && hopf_at(observations@, j) ==> steps@.contains(j as usize),
        decreases observations.len() - i,
    {
        let (complex, positive) = observations[i];
        let (_, was_positive) = observations[i - 1];
        let ghost old_steps = steps@;
        match (was_positive, positive) {
            (Some(false), Some(true)) => {
                if complex {
                    steps.push(i);
                }
            },
            _ => {},
        }
        proof {
            assert forall|j: int| 1 <= j < i + 1 && hopf_at(observations@, j) implies steps@.contains(
                j as usize,
            ) by {
                if j == i {
                    assert(steps@[old_steps.len() as int] == i);
                } else {
                    let k = choose|k: int| 0 <= k < old_steps.len() && old_steps[k] == j as usize;
                    assert(steps@[k] == j as usize);
                }
            }
        }
        i = i + 1;
    }
    proof {
        assert forall|i: int|
            1 <= i < observations.len() && observations@[i].0 && observations@[i - 1].1 == Some(false)
                && #[trigger] observations@[i].1 == Some(true) implies steps@.contains(i as usize) by {
            assert(hopf_at(observations@, i));
        }
    }
    steps
}

/// A Hopf bifurcation at a step depends only on the eigenvalues at that
/// step being a complex pair and on the sign of the real part before and
/// after; the kind of eigenvalues at the previous step plays no part (they
/// may turn complex at the very step the real part turns positive).
pub proof fn lemma_hopf_ignores_previous_kind(
    observations: Seq<(bool, Option<bool>)>,
    i: int,
    previously_complex: bool,
)
    requires
        1 <= i < observations.len(),
    ensures
        hopf_at(
            observations.update(i - 1, (previously_complex, observations[i - 1].1)),
            i,
        ) == hopf_at(observations, i),
        hopf_at(observations, i) <==> observations[i].0 && observations[i - 1].1 == Some(false)
            && observations[i].1 == Some(true),
{
}

} // verus!
