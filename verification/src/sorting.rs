//! Ordering candidates by distance. The final, exact re-ranking step of a
//! search sorts `(internal index, squared distance)` pairs by ascending
//! distance.

use itertools::Itertools;
use vstd::prelude::*;

verus! {

/// The pairs of `s` are in non-decreasing order of their distance
/// component.
pub open spec fn sorted_by_dist(s: Seq<(usize, u64)>) -> bool {
    forall|i: int, j: int| 0 <= i <= j < s.len() ==> (#[trigger] s[i]).1 <= (#[trigger] s[j]).1
}

/// Relies on itertools::Itertools::sorted_by_key: it sorts all iterator
/// elements into ascending order of the key, here the distance component,
/// reordering but neither dropping nor adding elements.
#[verifier::external_body]
pub(crate) fn sorted_by_distance(v: Vec<(usize, u64)>) -> (r: Vec<(usize, u64)>)
    ensures
        r@.to_multiset() == v@.to_multiset(),
        sorted_by_dist(r@),
{
    v.into_iter().sorted_by_key(|p: &(usize, u64)| p.1).collect()
}

} // verus!
