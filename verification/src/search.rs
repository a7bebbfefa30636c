//! What a search of the tree returns.
//!
//! A search visits the tree level by level, from the root down.  Each
//! visit is an entry `(first, level)`: the nodes from `first` on, at most
//! `b` of them and not past the end of `level`.  Of the nodes that match
//! the query, the leaves are reported and each inner node adds an entry
//! for its children, on the level below, to the next round of visits.

use crate::levels::{level_end, level_sizes};
use crate::ieee754::is_nan;
use crate::node::{boxes_meet, point_within, spec_contains_point, spec_intersects, NodeItem};
use crate::tree::{leaf_start, min_int};
use vstd::prelude::*;

verus! {

/// A search query.
#[derive(Debug, Clone, Copy)]
pub enum Query {
    /// All leaves whose box meets the box from `(min_x, min_y)` to
    /// `(max_x, max_y)`.
    BBox(u64, u64, u64, u64),
    /// All leaves whose box contains the point `(x, y)`.
    PointIntersects(u64, u64),
}

/// Bbox filter search result
#[derive(Debug, Clone, Copy)]
pub struct SearchResultItem {
    /// Byte offset in feature data section
    pub offset: usize,
    /// Feature number
    pub index: usize,
}

/// Whether `node` matches the query.
pub open spec fn query_matches(q: Query, node: NodeItem) -> bool {
    match q {
        Query::BBox(min_x, min_y, max_x, max_y) => spec_intersects(
            NodeItem { min_x, min_y, max_x, max_y, offset: 0 },
            node,
        ),
        Query::PointIntersects(x, y) => spec_contains_point(node, x, y),
    }
}

/// Where the visit of entry `e` stops.
pub open spec fn entry_end(n: nat, b: nat, e: (usize, usize)) -> int {
    min_int(e.0 + b, level_end(n, b, e.1 as int) as int)
}

/// The result reported for the leaf at position `p`.
pub open spec fn leaf_result(nodes: Seq<NodeItem>, n: nat, b: nat, p: int) -> SearchResultItem {
    SearchResultItem { offset: nodes[p].offset as usize, index: (p - leaf_start(n, b)) as usize }
}

/// The leaves among positions `lo..hi` that match, in order.
pub open spec fn range_hits(
    nodes: Seq<NodeItem>,
    n: nat,
    b: nat,
    q: Query,
    lo: int,
    hi: int,
) -> Seq<SearchResultItem>
    decreases hi - lo,
{
    if hi <= lo {
        Seq::empty()
    } else {
        let p = hi - 1;
        range_hits(nodes, n, b, q, lo, p) + if query_matches(q, nodes[p]) && p >= leaf_start(
            n,
            b,
        ) {
            seq![leaf_result(nodes, n, b, p)]
        } else {
            Seq::empty()
        }
    }
}

/// The entries that the matching inner nodes among positions `lo..hi` of
/// an entry on `level` add, in order.
pub open spec fn range_pushes(
    nodes: Seq<NodeItem>,
    n: nat,
    b: nat,
    q: Query,
    lo: int,
    hi: int,
    level: int,
) -> Seq<(usize, usize)>
    decreases hi - lo,
{
    if hi <= lo {
        Seq::empty()
    } else {
        let p = hi - 1;
        range_pushes(nodes, n, b, q, lo, p, level) + if query_matches(q, nodes[p]) && p
            < leaf_start(n, b) {
            seq![(nodes[p].offset as usize, (level - 1) as usize)]
        } else {
            Seq::empty()
        }
    }
}

/// The leaves reported while visiting the entries of `f`.
pub open spec fn frontier_hits(
    nodes: Seq<NodeItem>,
    n: nat,
    b: nat,
    q: Query,
    f: Seq<(usize, usize)>,
) -> Seq<SearchResultItem>
    decreases f.len(),
{
    if f.len() == 0 {
        Seq::empty()
    } else {
        frontier_hits(nodes, n, b, q, f.drop_last()) + range_hits(
            nodes,
            n,
            b,
            q,
            f.last().0 as int,
            entry_end(n, b, f.last()),
        )
    }
}

/// The entries added while visiting the entries of `f`.
pub open spec fn frontier_pushes(
    nodes: Seq<NodeItem>,
    n: nat,
    b: nat,
    q: Query,
    f: Seq<(usize, usize)>,
) -> Seq<(usize, usize)>
    decreases f.len(),
{
    if f.len() == 0 {
        Seq::empty()
    } else {
        frontier_pushes(nodes, n, b, q, f.drop_last()) + range_pushes(
            nodes,
            n,
            b,
            q,
            f.last().0 as int,
            entry_end(n, b, f.last()),
            f.last().1 as int,
        )
    }
}

/// The level of the root.
pub open spec fn top_level(n: nat, b: nat) -> nat {
    (level_sizes(n, b).len() - 1) as nat
}

/// The entries of round `j`: the root alone, then what each round adds.
pub open spec fn frontier(nodes: Seq<NodeItem>, n: nat, b: nat, q: Query, j: nat) -> Seq<
    (usize, usize),
>
    decreases j,
{
    if j == 0 {
        seq![(0usize, top_level(n, b) as usize)]
    } else {
        frontier_pushes(nodes, n, b, q, frontier(nodes, n, b, q, (j - 1) as nat))
    }
}

/// The leaves reported in the first `j` rounds.
pub open spec fn hits_upto(nodes: Seq<NodeItem>, n: nat, b: nat, q: Query, j: nat) -> Seq<
    SearchResultItem,
>
    decreases j,
{
    if j == 0 {
        Seq::empty()
    } else {
        hits_upto(nodes, n, b, q, (j - 1) as nat) + frontier_hits(
            nodes,
            n,
            b,
            q,
            frontier(nodes, n, b, q, (j - 1) as nat),
        )
    }
}

/// The result of searching the nodes of a tree with `n` leaves and
/// branching factor `b`: the leaves reported over all rounds, down to the
/// leaf level; or nothing, when a matching node visited on the leaf level
/// is stored before the leaves and would descend below them.
pub open spec fn spec_search(nodes: Seq<NodeItem>, n: nat, b: nat, q: Query) -> Option<
    Seq<SearchResultItem>,
> {
    let top = top_level(n, b);
    if frontier_pushes(nodes, n, b, q, frontier(nodes, n, b, q, top)).len() > 0 {
        None
    } else {
        Some(hits_upto(nodes, n, b, q, top + 1))
    }
}

/// Whether `node` matches the query.
pub fn node_matches(q: &Query, node: &NodeItem) -> (r: bool)
    ensures
        r == query_matches(*q, *node),
        match *q {
            Query::PointIntersects(x, y) => r == point_within(*node, x, y),
            Query::BBox(min_x, min_y, max_x, max_y) => {
                !is_nan(min_x) && !is_nan(min_y) && !is_nan(max_x) && !is_nan(max_y) && !is_nan(
                    node.min_x,
                ) && !is_nan(node.min_y) && !is_nan(node.max_x) && !is_nan(node.max_y) ==> r
                    == boxes_meet(NodeItem { min_x, min_y, max_x, max_y, offset: 0 }, *node)
            },
        },
{
    match q {
        Query::BBox(min_x, min_y, max_x, max_y) => {
            let bounds = NodeItem::bounds(*min_x, *min_y, *max_x, *max_y);
            bounds.intersects(node)
        },
        Query::PointIntersects(x, y) => node.contains_point(*x, *y),
    }
}

/// Every entry of round `j` is on level `top - j`.
pub proof fn lemma_frontier_levels(nodes: Seq<NodeItem>, n: nat, b: nat, q: Query, j: nat)
    requires
        j <= top_level(n, b),
        top_level(n, b) <= usize::MAX,
    ensures
        forall|i: int|
            0 <= i < frontier(nodes, n, b, q, j).len() ==> #[trigger] frontier(
                nodes,
                n,
                b,
                q,
                j,
            )[i].1 == top_level(n, b) - j,
    decreases j,
{
    if j > 0 {
        lemma_frontier_levels(nodes, n, b, q, (j - 1) as nat);
        lemma_frontier_pushes_levels(
            nodes,
            n,
            b,
            q,
            frontier(nodes, n, b, q, (j - 1) as nat),
            top_level(n, b) - (j - 1),
        );
    }
}

proof fn lemma_range_pushes_levels(
    nodes: Seq<NodeItem>,
    n: nat,
    b: nat,
    q: Query,
    lo: int,
    hi: int,
    level: int,
)
    requires
        1 <= level <= usize::MAX,
    ensures
        forall|i: int|
            0 <= i < range_pushes(nodes, n, b, q, lo, hi, level).len() ==> #[trigger] range_pushes(
                nodes,
                n,
                b,
                q,
                lo,
                hi,
                level,
            )[i].1 == level - 1,
    decreases hi - lo,
{
    if hi > lo {
        lemma_range_pushes_levels(nodes, n, b, q, lo, hi - 1, level);
        let s = range_pushes(nodes, n, b, q, lo, hi - 1, level);
        let whole = range_pushes(nodes, n, b, q, lo, hi, level);
        assert forall|i: int| 0 <= i < whole.len() implies #[trigger] whole[i].1 == level - 1 by {
            if i < s.len() {
                assert(whole[i] == s[i]);
            }
        }
    }
}

proof fn lemma_frontier_pushes_levels(
    nodes: Seq<NodeItem>,
    n: nat,
    b: nat,
    q: Query,
    f: Seq<(usize, usize)>,
    level: int,
)
    requires
        1 <= level <= usize::MAX,
        forall|i: int| 0 <= i < f.len() ==> #[trigger] f[i].1 == level,
    ensures
        forall|i: int|
            0 <= i < frontier_pushes(nodes, n, b, q, f).len() ==> #[trigger] frontier_pushes(
                nodes,
                n,
                b,
                q,
                f,
            )[i].1 == level - 1,
    decreases f.len(),
{
    if f.len() > 0 {
        lemma_frontier_pushes_levels(nodes, n, b, q, f.drop_last(), level);
        lemma_range_pushes_levels(
            nodes,
            n,
            b,
            q,
            f.last().0 as int,
            entry_end(n, b, f.last()),
            level,
        );
        assert(f.last().1 == level);
        let s = frontier_pushes(nodes, n, b, q, f.drop_last());
        let t = range_pushes(
            nodes,
            n,
            b,
            q,
            f.last().0 as int,
            entry_end(n, b, f.last()),
            f.last().1 as int,
        );
        let whole = frontier_pushes(nodes, n, b, q, f);
        assert(whole == s + t);
        assert forall|i: int| 0 <= i < whole.len() implies #[trigger] whole[i].1 == level - 1 by {
            if i < s.len() {
                assert(whole[i] == s[i]);
            } else {
                assert(whole[i] == t[i - s.len()]);
            }
        }
    }
}

/// The entries added by a prefix of a visit are a prefix of those added by
/// the whole visit.
pub proof fn lemma_range_pushes_grow(
    nodes: Seq<NodeItem>,
    n: nat,
    b: nat,
    q: Query,
    lo: int,
    mid: int,
    hi: int,
    level: int,
)
    requires
        lo <= mid <= hi,
    ensures
        range_pushes(nodes, n, b, q, lo, mid, level).len() <= range_pushes(
            nodes,
            n,
            b,
            q,
            lo,
            hi,
            level,
        ).len(),
    decreases hi - mid,
{
    if mid < hi {
        lemma_range_pushes_grow(nodes, n, b, q, lo, mid, hi - 1, level);
    }
}

/// The entries added while visiting a prefix of a round are a prefix of
/// those added by the whole round.
pub proof fn lemma_frontier_pushes_grow(
    nodes: Seq<NodeItem>,
    n: nat,
    b: nat,
    q: Query,
    f: Seq<(usize, usize)>,
    k: int,
)
    requires
        0 <= k <= f.len(),
    ensures
        frontier_pushes(nodes, n, b, q, f.take(k)).len() <= frontier_pushes(
            nodes,
            n,
            b,
            q,
            f,
        ).len(),
    decreases f.len() - k,
{
    if k < f.len() {
        lemma_frontier_pushes_grow(nodes, n, b, q, f.drop_last(), k);
        assert(f.drop_last().take(k) =~= f.take(k));
    } else {
        assert(f.take(k) =~= f);
    }
}

} // verus!
