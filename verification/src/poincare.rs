//! Poincaré sections: return maps of successive intersections.

use vstd::prelude::*;

verus! {

/// Build a return map from Poincaré section data: pairs each intersection
/// value of the chosen component with the value at the next intersection.
pub fn return_map<T: Copy>(crossings: &[[T; 2]], component: usize) -> (map: Vec<(T, T)>)
    requires
        crossings.len() > 0 ==> component < 2,
    ensures
        map.len() == if crossings.len() == 0 {
            0
        } else {
            crossings.len() - 1
        },
        forall|i: int|
            0 <= i < map.len() ==> #[trigger] map@[i] == (
                crossings@[i]@[component as int],
                crossings@[i + 1]@[component as int],
            ),
{
    let mut vals: Vec<T> = Vec::new();
    let mut i: usize = 0;
    while i < crossings.len()
        invariant
            i <= crossings.len(),
            crossings.len() > 0 ==> component < 2,
            vals.len() == i,
            forall|j: int| 0 <= j < i ==> #[trigger] vals@[j] == crossings@[j]@[component as int],
        decreases crossings.len() - i,
    {
        let c = crossings[i];
        vals.push(c[component]);
        i = i + 1;
    }
    let mut map: Vec<(T, T)> = Vec::new();
    let mut k: usize = 1;
    while k < vals.len()
        invariant
            1 <= k,
            k <= vals.len() || (vals.len() == 0 && k == 1),
            vals.len() == crossings.len(),
            forall|j: int| 0 <= j < vals.len() ==> #[trigger] vals@[j] == crossings@[j]@[component as int],
            map.len() == k - 1,
            forall|j: int|
                0 <= j < map.len() ==> #[trigger] map@[j] == (
                    crossings@[j]@[component as int],
                    crossings@[j + 1]@[component as int],
                ),
        decreases vals.len() - k,
    {
        map.push((vals[k - 1], vals[k]));
        k = k + 1;
    }
    map
}

} // verus!
