//! A stable sort of keyed positions.

use vstd::prelude::*;

verus! {

/// `output` is `input` ordered by the first component, smallest first,
/// with pairs of equal first components kept in their order: `perm` tells
/// where each pair of `output` comes from.
pub open spec fn stable_asc_arrangement(
    input: Seq<(u32, usize)>,
    output: Seq<(u32, usize)>,
    perm: Seq<int>,
) -> bool {
    &&& perm.len() == input.len()
    &&& output.len() == input.len()
    &&& forall|i: int|
        0 <= i < output.len() ==> 0 <= #[trigger] perm[i] < input.len() && output[i] == input[perm[i]]
    &&& forall|i: int, j: int| 0 <= i < j < output.len() ==> #[trigger] perm[i] != #[trigger] perm[j]
    &&& forall|i: int, j: int|
        0 <= i < j < output.len() ==> (#[trigger] output[i]).0 <= (#[trigger] output[j]).0
    &&& forall|i: int, j: int|
        0 <= i < j < output.len() && (#[trigger] output[i]).0 == (#[trigger] output[j]).0 ==> perm[i]
            < perm[j]
}

/// `slice::sort_by_key` of std, keyed by the first component: it orders the
/// pairs by their first component, smallest first; std documents this sort
/// as stable, so pairs with equal keys keep their order.
#[verifier::external_body]
pub(crate) fn sort_by_first(v: &mut Vec<(u32, usize)>)
    ensures
        exists|perm: Seq<int>| stable_asc_arrangement(old(v)@, final(v)@, perm),
{
    v.sort_by_key(|e| e.0);
}

} // verus!
