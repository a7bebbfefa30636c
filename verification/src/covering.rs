//! How a grown box relates to the boxes it was grown by.

use crate::ieee754::{is_nan, order_key, POS_INFINITY, NEG_INFINITY};
use crate::node::{expand_all, spec_create, spec_expand, NodeItem};
use vstd::prelude::*;

verus! {

/// None of the four coordinates of `x` is a NaN.
pub open spec fn no_nan(x: NodeItem) -> bool {
    &&& !is_nan(x.min_x)
    &&& !is_nan(x.min_y)
    &&& !is_nan(x.max_x)
    &&& !is_nan(x.max_y)
}

/// `a` reaches at least as far as every non-NaN coordinate of `x`, in each
/// direction.
pub open spec fn covers(a: NodeItem, x: NodeItem) -> bool {
    &&& no_nan(a)
    &&& !is_nan(x.min_x) ==> order_key(a.min_x) <= order_key(x.min_x)
    &&& !is_nan(x.min_y) ==> order_key(a.min_y) <= order_key(x.min_y)
    &&& !is_nan(x.max_x) ==> order_key(x.max_x) <= order_key(a.max_x)
    &&& !is_nan(x.max_y) ==> order_key(x.max_y) <= order_key(a.max_y)
}

/// Growing the empty box never yields a NaN coordinate, keeps the offset,
/// and covers every box it was grown by.
pub proof fn lemma_expand_all_covers(o: u64, s: Seq<NodeItem>)
    ensures
        no_nan(expand_all(spec_create(o), s)),
        expand_all(spec_create(o), s).offset == o,
        forall|i: int| 0 <= i < s.len() ==> covers(expand_all(spec_create(o), s), #[trigger] s[i]),
    decreases s.len(),
{
    assert(!is_nan(POS_INFINITY) && !is_nan(NEG_INFINITY));
    if s.len() > 0 {
        lemma_expand_all_covers(o, s.drop_last());
        let a = expand_all(spec_create(o), s.drop_last());
        let r = s.last();
        let e = spec_expand(a, r);
        assert forall|i: int| 0 <= i < s.len() implies covers(e, #[trigger] s[i]) by {
            if i < s.len() - 1 {
                assert(s[i] == s.drop_last()[i]);
                assert(covers(a, s[i]));
            }
        }
    }
}

} // verus!
