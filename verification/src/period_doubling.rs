//! Period-doubling cascades: where the period of an orbit grows along a
//! parameter scan.

use vstd::prelude::*;

verus! {

/// A scan of orbit periods doubles (grows) at step `i`: the period found at
/// the step before was determined (non-zero) and the period at step `i` is
/// larger.
pub open spec fn period_grows_at(periods: Seq<usize>, i: int) -> bool {
    &&& 1 <= i < periods.len()
    &&& periods[i - 1] > 0
    &&& periods[i] > periods[i - 1]
}

/// The steps of a parameter scan at which the detected period grows, in
/// increasing order. `periods[i]` is the period found at the i-th parameter
/// value, 0 where none could be determined.
pub fn period_increase_indices(periods: &[usize]) -> (steps: Vec<usize>)
    ensures
        forall|k: int| 0 <= k < steps.len() ==> period_grows_at(periods@, #[trigger] steps@[k] as int),
        forall|k: int, m: int| 0 <= k < m < steps.len() ==> #[trigger] steps@[k] < #[trigger] steps@[m],
        forall|i: int| period_grows_at(periods@, i) ==> steps@.contains(i as usize),
        forall|i: int|
            1 <= i < periods.len() && 0 < #[trigger] periods@[i - 1] < periods@[i]
                ==> steps@.contains(i as usize),
        forall|k: int|
            0 <= k < steps.len() ==> 1 <= #[trigger] steps@[k] < periods.len() && 0 < periods@[steps@[k]
                - 1] < periods@[steps@[k] as int],
{
    let mut steps: Vec<usize> = Vec::new();
    let mut prev_period: usize = 0;
    let mut i: usize = 0;
    while i < periods.len()
        invariant
            i <= periods.len(),
            i > 0 ==> prev_period == periods@[i - 1],
            i == 0 ==> prev_period == 0,
            forall|k: int| 0 <= k < steps.len() ==> period_grows_at(periods@, #[trigger] steps@[k] as int),
            forall|k: int| 0 <= k < steps.len() ==> #[trigger] steps@[k] < i,
            forall|k: int, m: int| 0 <= k < m < steps.len() ==> #[trigger] steps@[k] < #[trigger] steps@[m],
            forall|j: int| 0 <= j < i && period_grows_at(periods@, j) ==> steps@.contains(j as usize),
        decreases periods.len() - i,
    {
        let period = periods[i];
        if prev_period > 0 && period != prev_period && period > prev_period {
            let ghost old_steps = steps@;
            steps.push(i);
            proof {
                assert(steps@[old_steps.len() as int] == i);
                assert forall|j: int| 0 <= j < i && period_grows_at(periods@, j) implies steps@.contains(
                    j as usize,
                ) by {
                    let k = choose|k: int| 0 <= k < old_steps.len() && old_steps[k] == j as usize;
                    assert(steps@[k] == j as usize);
                }
            }
        }
        prev_period = period;
        i = i + 1;
    }
    proof {
        assert forall|i: int|
            1 <= i < periods.len() && 0 < #[trigger] periods@[i - 1] < periods@[i]
                implies steps@.contains(i as usize) by {
            assert(period_grows_at(periods@, i));
        }
    }
    steps
}

/// Every growth of a determined period is reported, whether the period
/// doubles exactly or jumps further (a coarse scan may pass from period 1
/// straight to period 4): for `0 < p < q`, the scan `[p, q]` grows at its
/// second step, and never at a step where the period does not grow.
pub proof fn lemma_any_growth_is_reported(periods: Seq<usize>, i: int)
    requires
        1 <= i < periods.len(),
    ensures
        period_grows_at(periods, i) <==> 0 < periods[i - 1] < periods[i],
        period_grows_at(seq![periods[i - 1], periods[i]], 1) == period_grows_at(periods, i),
{
}

} // verus!
