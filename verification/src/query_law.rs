//! What a query matches, in terms of the real-number order of the
//! coordinates, and what a search of a built tree therefore reports.

use crate::covering::no_nan;
use crate::ieee754::is_nan;
use crate::levels::shape_ok;
use crate::node::{boxes_meet, point_within, spec_intersects, NodeItem};
use crate::search::{query_matches, spec_search, Query, SearchResultItem};
use crate::search_law::{lemma_search_built_tree, matching_leaves, query_exact_on};
use crate::tree::well_built;
use vstd::prelude::*;

verus! {

/// The query box of a box query.
pub open spec fn query_box(min_x: u64, min_y: u64, max_x: u64, max_y: u64) -> NodeItem {
    NodeItem { min_x, min_y, max_x, max_y, offset: 0 }
}

/// A point query matches a node exactly when the point lies in the node's
/// closed box on both axes: `min_x <= x <= max_x` and `min_y <= y <=
/// max_y`, as binary64 comparisons (a NaN never lies in a box).
pub proof fn lemma_point_query_matches(node: NodeItem, x: u64, y: u64)
    ensures
        query_matches(Query::PointIntersects(x, y), node) == point_within(node, x, y),
{
}

/// A box query matches a node exactly when the two closed boxes share a
/// point, touching on any of the four sides included, when no coordinate
/// is a NaN.
pub proof fn lemma_box_query_matches(min_x: u64, min_y: u64, max_x: u64, max_y: u64, node: NodeItem)
    requires
        !is_nan(min_x) && !is_nan(min_y) && !is_nan(max_x) && !is_nan(max_y),
        no_nan(node),
    ensures
        query_matches(Query::BBox(min_x, min_y, max_x, max_y), node) == boxes_meet(
            query_box(min_x, min_y, max_x, max_y),
            node,
        ),
{
}

/// Two boxes intersect the same way round: a box query matches a node
/// exactly when the node intersects the query box.
pub proof fn lemma_box_query_symmetric(min_x: u64, min_y: u64, max_x: u64, max_y: u64, node: NodeItem)
    ensures
        query_matches(Query::BBox(min_x, min_y, max_x, max_y), node) == spec_intersects(
            node,
            query_box(min_x, min_y, max_x, max_y),
        ),
        spec_intersects(node, query_box(min_x, min_y, max_x, max_y)) == spec_intersects(
            query_box(min_x, min_y, max_x, max_y),
            node,
        ),
{
}

/// The leaves among `leaves[0..hi]` whose box holds the point, in order,
/// each with its offset and position.
pub open spec fn leaves_holding(leaves: Seq<NodeItem>, x: u64, y: u64, hi: int) -> Seq<SearchResultItem>
    decreases hi,
{
    if hi <= 0 {
        Seq::empty()
    } else {
        leaves_holding(leaves, x, y, hi - 1) + if point_within(leaves[hi - 1], x, y) {
            seq![SearchResultItem { offset: leaves[hi - 1].offset as usize, index: (hi - 1) as usize }]
        } else {
            Seq::empty()
        }
    }
}

/// The leaves among `leaves[0..hi]` whose box shares a point with the
/// query box, in order, each with its offset and position.
pub open spec fn leaves_meeting(leaves: Seq<NodeItem>, q: NodeItem, hi: int) -> Seq<SearchResultItem>
    decreases hi,
{
    if hi <= 0 {
        Seq::empty()
    } else {
        leaves_meeting(leaves, q, hi - 1) + if boxes_meet(q, leaves[hi - 1]) {
            seq![SearchResultItem { offset: leaves[hi - 1].offset as usize, index: (hi - 1) as usize }]
        } else {
            Seq::empty()
        }
    }
}

proof fn lemma_holding_is_matching(leaves: Seq<NodeItem>, x: u64, y: u64, hi: int)
    requires
        0 <= hi <= leaves.len(),
    ensures
        leaves_holding(leaves, x, y, hi) == matching_leaves(leaves, Query::PointIntersects(x, y), 0, hi),
    decreases hi,
{
    if hi > 0 {
        lemma_holding_is_matching(leaves, x, y, hi - 1);
        lemma_point_query_matches(leaves[hi - 1], x, y);
    }
}

proof fn lemma_meeting_is_matching(
    leaves: Seq<NodeItem>,
    min_x: u64,
    min_y: u64,
    max_x: u64,
    max_y: u64,
    hi: int,
)
    requires
        0 <= hi <= leaves.len(),
        !is_nan(min_x) && !is_nan(min_y) && !is_nan(max_x) && !is_nan(max_y),
        forall|i: int| 0 <= i < leaves.len() ==> no_nan(#[trigger] leaves[i]),
    ensures
        leaves_meeting(leaves, query_box(min_x, min_y, max_x, max_y), hi) == matching_leaves(
            leaves,
            Query::BBox(min_x, min_y, max_x, max_y),
            0,
            hi,
        ),
    decreases hi,
{
    if hi > 0 {
        lemma_meeting_is_matching(leaves, min_x, min_y, max_x, max_y, hi - 1);
        lemma_box_query_matches(min_x, min_y, max_x, max_y, leaves[hi - 1]);
    }
}

/// A point search of a tree built over `leaves` reports exactly the leaves
/// whose closed box holds the point on both axes, in order, and never
/// fails.
pub proof fn lemma_point_search_built_tree(nodes: Seq<NodeItem>, leaves: Seq<NodeItem>, b: nat, x: u64, y: u64)
    requires
        well_built(nodes, leaves, b),
        shape_ok(leaves.len(), b),
    ensures
        spec_search(nodes, leaves.len(), b, Query::PointIntersects(x, y)) == Some(
            leaves_holding(leaves, x, y, leaves.len() as int),
        ),
{
    lemma_search_built_tree(nodes, leaves, b, Query::PointIntersects(x, y));
    lemma_holding_is_matching(leaves, x, y, leaves.len() as int);
}

/// A box search of a tree built over `leaves` reports exactly the leaves
/// whose closed box shares a point with the query box (touching included),
/// in order, and never fails, when no coordinate is a NaN.
pub proof fn lemma_box_search_built_tree(
    nodes: Seq<NodeItem>,
    leaves: Seq<NodeItem>,
    b: nat,
    min_x: u64,
    min_y: u64,
    max_x: u64,
    max_y: u64,
)
    requires
        well_built(nodes, leaves, b),
        shape_ok(leaves.len(), b),
        !is_nan(min_x) && !is_nan(min_y) && !is_nan(max_x) && !is_nan(max_y),
        forall|i: int| 0 <= i < leaves.len() ==> no_nan(#[trigger] leaves[i]),
    ensures
        spec_search(nodes, leaves.len(), b, Query::BBox(min_x, min_y, max_x, max_y)) == Some(
            leaves_meeting(leaves, query_box(min_x, min_y, max_x, max_y), leaves.len() as int),
        ),
{
    let q = Query::BBox(min_x, min_y, max_x, max_y);
    assert(query_exact_on(q, leaves));
    lemma_search_built_tree(nodes, leaves, b, q);
    lemma_meeting_is_matching(leaves, min_x, min_y, max_x, max_y, leaves.len() as int);
}

} // verus!
