//! Discrete choices made while measuring an antenna beam footprint.
use vstd::prelude::*;

verus! {

/// Number of points sampled around a beam footprint, at a uniform angular step.
pub const FOOTPRINT_SIZE: usize = 2501;

/// The indices of the first two `true` entries of `hits`, or `None` when fewer
/// than two entries are `true`.
///
/// Used to pick the two footprint edges crossed by the carrier's ground track:
/// the illumination time is only defined when two crossings are found.
pub fn first_two_hits(hits: &Vec<bool>) -> (r: Option<(usize, usize)>)
    ensures
        r is None <==> !exists|i: int, j: int| 0 <= i < j < hits@.len() && #[trigger] hits@[i] && #[trigger] hits@[j],
        r matches Some((i, j)) ==> {
            &&& i < j < hits@.len()
            &&& hits@[i as int]
            &&& hits@[j as int]
            &&& forall|k: int| 0 <= k < j && k != i ==> !#[trigger] hits@[k]
        },
{
    let mut first: Option<usize> = None;
    let mut k: usize = 0;
    while k < hits.len()
        invariant
            k <= hits@.len(),
            first matches Some(i) ==> i < k && hits@[i as int] && forall|m: int| 0 <= m < k && m != i ==> !#[trigger] hits@[m],
            first is None ==> forall|m: int| 0 <= m < k ==> !#[trigger] hits@[m],
        decreases hits@.len() - k,
    {
        if hits[k] {
            match first {
                Some(i) => {
                    return Some((i, k));
                },
                None => {
                    first = Some(k);
                },
            }
        }
        k += 1;
    }
    None
}

} // verus!
