//! The box grown over all nodes of a built tree is the box grown over its
//! leaves: reading a tree back gives the extent of its leaves.

use crate::covering::{covers, lemma_expand_all_covers, no_nan};
use crate::ieee754::{is_nan, order_key, spec_eq, spec_lt, NEG_INFINITY, POS_INFINITY};
use crate::levels::{
    lemma_level_positions, lemma_level_sizes, level_end, level_sizes, level_start, shape_ok, total_nodes,
};
use crate::node::{expand_all, spec_create, spec_expand, NodeItem};
use crate::search_law::{lemma_built_facts, lemma_groups_local};
use crate::tree::{group_end, group_start, leaf_start, parent_of, well_built};
use vstd::prelude::*;

verus! {

/// Coordinate `k` of a box: `min_x`, `min_y`, `max_x`, `max_y` for `k` of
/// 0 to 3.
spec fn coord(x: NodeItem, k: int) -> u64 {
    if k == 0 {
        x.min_x
    } else if k == 1 {
        x.min_y
    } else if k == 2 {
        x.max_x
    } else {
        x.max_y
    }
}

/// Coordinate `k` of the empty box.
spec fn start_coord(k: int) -> u64 {
    if k < 2 {
        POS_INFINITY
    } else {
        NEG_INFINITY
    }
}

/// `v` reaches at least as far as `w` in direction `k`: not above it for
/// a lower bound, not below it for an upper bound.
spec fn reaches(k: int, v: u64, w: u64) -> bool {
    if k < 2 {
        order_key(v) <= order_key(w)
    } else {
        order_key(v) >= order_key(w)
    }
}

/// Coordinate `k` of a grown box is that of the empty box or a non-NaN
/// coordinate of one of the boxes it was grown by.
proof fn lemma_attained(o: u64, s: Seq<NodeItem>, k: int)
    requires
        0 <= k < 4,
    ensures
        coord(expand_all(spec_create(o), s), k) == start_coord(k) || exists|i: int|
            0 <= i < s.len() && coord(expand_all(spec_create(o), s), k) == coord(#[trigger] s[i], k)
                && !is_nan(coord(s[i], k)),
    decreases s.len(),
{
    if s.len() > 0 {
        let t = s.drop_last();
        lemma_attained(o, t, k);
        let a = expand_all(spec_create(o), t);
        let e = spec_expand(a, s.last());
        if coord(e, k) != coord(a, k) {
            assert(coord(e, k) == coord(s[s.len() - 1], k));
        } else if coord(a, k) != start_coord(k) {
            let i = choose|i: int| 0 <= i < t.len() && coord(a, k) == coord(#[trigger] t[i], k) && !is_nan(coord(t[i], k));
            assert(t[i] == s[i]);
        }
    }
}

/// A value that reaches as far as every non-NaN coordinate `k` of the boxes
/// (and as the empty box) reaches as far as the grown box.
proof fn lemma_reaches_grown(o: u64, s: Seq<NodeItem>, k: int, v: u64)
    requires
        0 <= k < 4,
        reaches(k, v, start_coord(k)),
        forall|i: int| 0 <= i < s.len() && !is_nan(coord(#[trigger] s[i], k)) ==> reaches(k, v, coord(s[i], k)),
    ensures
        reaches(k, v, coord(expand_all(spec_create(o), s), k)),
{
    lemma_attained(o, s, k);
}

/// A box that covers another reaches as far in each direction.
proof fn lemma_covers_reaches(a: NodeItem, x: NodeItem, k: int)
    requires
        0 <= k < 4,
        covers(a, x),
        !is_nan(coord(x, k)),
    ensures
        reaches(k, coord(a, k), coord(x, k)),
        !is_nan(coord(a, k)),
{
}

/// Every non-NaN value reaches no farther than the empty box's side.
proof fn lemma_reaches_start(k: int, v: u64)
    requires
        0 <= k < 4,
        !is_nan(v),
    ensures
        reaches(k, v, start_coord(k)),
{
    assert(order_key(POS_INFINITY) == 0x7FF0_0000_0000_0000int);
    assert(order_key(NEG_INFINITY) == -0x7FF0_0000_0000_0000int);
}

/// The level that holds position `q`, among the levels up to `j`.
proof fn lemma_level_of(n: nat, b: nat, q: int, j: int) -> (l: int)
    requires
        shape_ok(n, b),
        0 <= j < level_sizes(n, b).len(),
        level_start(n, b, j) <= q < total_nodes(n, b),
    ensures
        0 <= l <= j,
        level_start(n, b, l) <= q < level_end(n, b, l),
        l < level_sizes(n, b).len(),
    decreases j,
{
    lemma_level_sizes(n, b);
    lemma_level_positions(n, b);
    if q < level_end(n, b, j) {
        j
    } else {
        assert(j > 0);
        assert(level_end(n, b, (j - 1) + 1) == level_start(n, b, j - 1));
        lemma_level_of(n, b, q, j - 1)
    }
}

/// The box grown over the leaves reaches as far as every node of the
/// levels up to `l`.
proof fn lemma_leaves_reach_levels(nodes: Seq<NodeItem>, leaves: Seq<NodeItem>, b: nat, k: int, l: int)
    requires
        well_built(nodes, leaves, b),
        shape_ok(leaves.len(), b),
        forall|i: int| 0 <= i < leaves.len() ==> no_nan(#[trigger] leaves[i]),
        0 <= k < 4,
        0 <= l < level_sizes(leaves.len(), b).len(),
    ensures
        forall|p: int|
            0 <= p < level_sizes(leaves.len(), b)[l] && !is_nan(
                coord(#[trigger] nodes[level_start(leaves.len(), b, l) + p], k),
            ) ==> reaches(
                k,
                coord(expand_all(spec_create(0), leaves), k),
                coord(nodes[level_start(leaves.len(), b, l) + p], k),
            ),
    decreases l,
{
    let n = leaves.len();
    let e = expand_all(spec_create(0), leaves);
    lemma_built_facts(nodes, leaves, b);
    lemma_level_sizes(n, b);
    lemma_level_positions(n, b);
    lemma_expand_all_covers(0, leaves);
    if l == 0 {
        assert forall|p: int|
            0 <= p < level_sizes(n, b)[l] && !is_nan(coord(#[trigger] nodes[level_start(n, b, l) + p], k))
            implies reaches(k, coord(e, k), coord(nodes[level_start(n, b, l) + p], k)) by {
            assert(nodes[leaf_start(n, b) + p] == leaves[p]);
            lemma_covers_reaches(e, leaves[p], k);
        }
    } else {
        lemma_leaves_reach_levels(nodes, leaves, b, k, l - 1);
        assert forall|p: int|
            0 <= p < level_sizes(n, b)[l] && !is_nan(coord(#[trigger] nodes[level_start(n, b, l) + p], k))
            implies reaches(k, coord(e, k), coord(nodes[level_start(n, b, l) + p], k)) by {
            lemma_groups_local(n, b, l - 1, p);
            let gs = group_start(n, b, l - 1, p);
            let ge = group_end(n, b, l - 1, p);
            let kids = nodes.subrange(gs, ge);
            assert(nodes[level_start(n, b, l) + p] == parent_of(nodes, n, b, l - 1, p));
            assert forall|i: int| 0 <= i < kids.len() && !is_nan(coord(#[trigger] kids[i], k)) implies reaches(
                k,
                coord(e, k),
                coord(kids[i], k),
            ) by {
                assert(kids[i] == nodes[level_start(n, b, l - 1) + (gs + i - level_start(n, b, l - 1))]);
            }
            assert(no_nan(e));
            lemma_reaches_start(k, coord(e, k));
            lemma_reaches_grown(gs as u64, kids, k, coord(e, k));
        }
    }
}

/// Reading back the nodes of a tree built over leaves without NaN
/// coordinates, the box grown over all of them equals, coordinate by
/// coordinate as binary64 values and in its offset, the box grown over
/// the leaves (`calc_extent` of the leaves).
pub proof fn lemma_extent_of_built_tree(nodes: Seq<NodeItem>, leaves: Seq<NodeItem>, b: nat)
    requires
        well_built(nodes, leaves, b),
        shape_ok(leaves.len(), b),
        forall|i: int| 0 <= i < leaves.len() ==> no_nan(#[trigger] leaves[i]),
    ensures
        ({
            let all = expand_all(spec_create(0), nodes);
            let lv = expand_all(spec_create(0), leaves);
            &&& spec_eq(all.min_x, lv.min_x)
            &&& spec_eq(all.min_y, lv.min_y)
            &&& spec_eq(all.max_x, lv.max_x)
            &&& spec_eq(all.max_y, lv.max_y)
            &&& all.offset == lv.offset
        }),
{
    let n = leaves.len();
    let all = expand_all(spec_create(0), nodes);
    let lv = expand_all(spec_create(0), leaves);
    lemma_built_facts(nodes, leaves, b);
    lemma_level_sizes(n, b);
    lemma_level_positions(n, b);
    lemma_expand_all_covers(0, nodes);
    lemma_expand_all_covers(0, leaves);
    assert forall|k: int| 0 <= k < 4 implies order_key(coord(all, k)) == order_key(coord(lv, k)) by {
        // The leaves' box reaches as far as every node, hence as the box of all nodes.
        assert forall|q: int| 0 <= q < nodes.len() && !is_nan(coord(#[trigger] nodes[q], k)) implies reaches(
            k,
            coord(lv, k),
            coord(nodes[q], k),
        ) by {
            assert(level_start(n, b, level_sizes(n, b).len() - 1) == 0);
            let l = lemma_level_of(n, b, q, level_sizes(n, b).len() - 1);
            assert(level_end(n, b, l) == level_start(n, b, l) + level_sizes(n, b)[l]);
            lemma_leaves_reach_levels(nodes, leaves, b, k, l);
            assert(nodes[level_start(n, b, l) + (q - level_start(n, b, l))] == nodes[q]);
        }
        lemma_reaches_start(k, coord(lv, k));
        lemma_reaches_grown(0, nodes, k, coord(lv, k));
        // The box of all nodes reaches as far as every leaf, hence as the leaves' box.
        assert forall|i: int| 0 <= i < leaves.len() && !is_nan(coord(#[trigger] leaves[i], k)) implies reaches(
            k,
            coord(all, k),
            coord(leaves[i], k),
        ) by {
            assert(nodes[leaf_start(n, b) + i] == leaves[i]);
            lemma_covers_reaches(all, nodes[leaf_start(n, b) + i], k);
        }
        lemma_reaches_start(k, coord(all, k));
        lemma_reaches_grown(0, leaves, k, coord(all, k));
    }
    assert(order_key(coord(all, 0)) == order_key(coord(lv, 0)));
    assert(order_key(coord(all, 1)) == order_key(coord(lv, 1)));
    assert(order_key(coord(all, 2)) == order_key(coord(lv, 2)));
    assert(order_key(coord(all, 3)) == order_key(coord(lv, 3)));
}

} // verus!
