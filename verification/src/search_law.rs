//! A search of a built tree finds exactly the leaves that match the query.

use crate::covering::{covers, lemma_expand_all_covers, no_nan};
use crate::ieee754::{order_key, spec_le, spec_lt};
use crate::levels::{
    lemma_levels_fewer_than_nodes, lemma_groups, lemma_level_positions, lemma_level_sizes, level_end, level_sizes, level_start,
    shape_ok, total_nodes,
};
use crate::node::{NodeItem, spec_contains_point, spec_intersects};
use crate::search::{
    entry_end, frontier, frontier_hits, frontier_pushes, hits_upto, query_matches, range_hits,
    range_pushes, spec_search, top_level, Query, SearchResultItem,
};
use crate::tree::{group_end, group_start, leaf_start, min_int, parent_of, well_built};
use vstd::prelude::*;

verus! {

/// The leaves among `leaves[lo..hi]` that match the query, in order, each
/// with its offset and its position among the leaves.
pub open spec fn matching_leaves(leaves: Seq<NodeItem>, q: Query, lo: int, hi: int) -> Seq<
    SearchResultItem,
>
    decreases hi - lo,
{
    if hi <= lo {
        Seq::empty()
    } else {
        matching_leaves(leaves, q, lo, hi - 1) + if query_matches(q, leaves[hi - 1]) {
            seq![SearchResultItem { offset: leaves[hi - 1].offset as usize, index: (hi - 1) as usize }]
        } else {
            Seq::empty()
        }
    }
}

/// The queries for which a search of a built tree is exact: a point query
/// always, a box query when no leaf coordinate is a NaN.
pub open spec fn query_exact_on(q: Query, leaves: Seq<NodeItem>) -> bool {
    match q {
        Query::BBox(_, _, _, _) => forall|i: int| 0 <= i < leaves.len() ==> no_nan(#[trigger] leaves[i]),
        Query::PointIntersects(_, _) => true,
    }
}

/// The entries for the matching nodes among `lo..hi` of level `l`: each
/// the group of children of the node on level `l - 1`.
spec fn level_matches(nodes: Seq<NodeItem>, n: nat, b: nat, q: Query, l: int, lo: int, hi: int) -> Seq<
    (usize, usize),
>
    decreases hi - lo,
{
    if hi <= lo {
        Seq::empty()
    } else {
        level_matches(nodes, n, b, q, l, lo, hi - 1) + if query_matches(
            q,
            nodes[level_start(n, b, l) + hi - 1],
        ) {
            seq![(group_start(n, b, l - 1, hi - 1) as usize, (l - 1) as usize)]
        } else {
            Seq::empty()
        }
    }
}

proof fn lemma_level_matches_concat(
    nodes: Seq<NodeItem>,
    n: nat,
    b: nat,
    q: Query,
    l: int,
    lo: int,
    mid: int,
    hi: int,
)
    requires
        lo <= mid <= hi,
    ensures
        level_matches(nodes, n, b, q, l, lo, mid) + level_matches(nodes, n, b, q, l, mid, hi)
            == level_matches(nodes, n, b, q, l, lo, hi),
    decreases hi - mid,
{
    if mid < hi {
        lemma_level_matches_concat(nodes, n, b, q, l, lo, mid, hi - 1);
        assert(level_matches(nodes, n, b, q, l, lo, mid) + level_matches(nodes, n, b, q, l, mid, hi)
            =~= level_matches(nodes, n, b, q, l, lo, hi));
    } else {
        assert(level_matches(nodes, n, b, q, l, lo, mid) + level_matches(nodes, n, b, q, l, mid, hi)
            =~= level_matches(nodes, n, b, q, l, lo, hi));
    }
}

proof fn lemma_matching_leaves_concat(leaves: Seq<NodeItem>, q: Query, lo: int, mid: int, hi: int)
    requires
        lo <= mid <= hi,
    ensures
        matching_leaves(leaves, q, lo, mid) + matching_leaves(leaves, q, mid, hi)
            == matching_leaves(leaves, q, lo, hi),
    decreases hi - mid,
{
    if mid < hi {
        lemma_matching_leaves_concat(leaves, q, lo, mid, hi - 1);
        assert(matching_leaves(leaves, q, lo, mid) + matching_leaves(leaves, q, mid, hi)
            =~= matching_leaves(leaves, q, lo, hi));
    } else {
        assert(matching_leaves(leaves, q, lo, mid) + matching_leaves(leaves, q, mid, hi)
            =~= matching_leaves(leaves, q, lo, hi));
    }
}

/// Facts about a built tree used throughout.
pub(crate) proof fn lemma_built_facts(nodes: Seq<NodeItem>, leaves: Seq<NodeItem>, b: nat)
    requires
        well_built(nodes, leaves, b),
        shape_ok(leaves.len(), b),
    ensures
        level_sizes(leaves.len(), b).len() >= 2,
        level_start(leaves.len(), b, top_level(leaves.len(), b) as int) == 0,
        level_sizes(leaves.len(), b)[top_level(leaves.len(), b) as int] == 1,
        level_sizes(leaves.len(), b)[0] == leaves.len(),
        leaf_start(leaves.len(), b) + leaves.len() == total_nodes(leaves.len(), b),
        leaf_start(leaves.len(), b) >= 1,
        top_level(leaves.len(), b) < usize::MAX,
        total_nodes(leaves.len(), b) <= usize::MAX,
        forall|l: int|
            1 <= l < level_sizes(leaves.len(), b).len() ==> #[trigger] level_end(
                leaves.len(),
                b,
                l,
            ) <= leaf_start(leaves.len(), b),
{
    let n = leaves.len();
    lemma_level_sizes(n, b);
    lemma_level_positions(n, b);
    lemma_levels_fewer_than_nodes(n, b);
    assert(level_end(n, b, 1) == level_start(n, b, 0));
    assert forall|l: int| 1 <= l < level_sizes(n, b).len() implies #[trigger] level_end(n, b, l)
        <= leaf_start(n, b) by {
        assert(level_end(n, b, l) <= level_end(n, b, 1));
    }
    let top = top_level(n, b) as int;
    assert(level_end(n, b, top) <= leaf_start(n, b));
}

/// A node on a level above the leaves is the parent of its group of
/// children: its offset is where that group starts, and its box covers
/// every child.
pub(crate) proof fn lemma_inner_node(nodes: Seq<NodeItem>, leaves: Seq<NodeItem>, b: nat, l: int, p: int)
    requires
        well_built(nodes, leaves, b),
        shape_ok(leaves.len(), b),
        1 <= l < level_sizes(leaves.len(), b).len(),
        0 <= p < level_sizes(leaves.len(), b)[l],
    ensures
        nodes[level_start(leaves.len(), b, l) + p].offset == group_start(leaves.len(), b, l - 1, p) as u64,
        no_nan(nodes[level_start(leaves.len(), b, l) + p]),
        0 <= group_start(leaves.len(), b, l - 1, p) <= usize::MAX,
        forall|i: int|
            group_start(leaves.len(), b, l - 1, p) <= i < group_end(leaves.len(), b, l - 1, p) ==> covers(
                nodes[level_start(leaves.len(), b, l) + p],
                #[trigger] nodes[i],
            ),
{
    let n = leaves.len();
    lemma_level_sizes(n, b);
    lemma_level_positions(n, b);
    lemma_groups_local(n, b, l - 1, p);
    let gs = group_start(n, b, l - 1, p);
    let ge = group_end(n, b, l - 1, p);
    let s = nodes.subrange(gs, ge);
    lemma_expand_all_covers(gs as u64, s);
    assert(nodes[level_start(n, b, l) + p] == parent_of(nodes, n, b, l - 1, p));
    assert forall|i: int| gs <= i < ge implies covers(nodes[level_start(n, b, l) + p], #[trigger] nodes[i]) by {
        assert(nodes[i] == s[i - gs]);
    }
}

/// The `p`-th group of children lies inside its level and is not empty.
pub(crate) proof fn lemma_groups_local(n: nat, b: nat, c: int, p: int)
    requires
        n >= 1,
        b >= 2,
        shape_ok(n, b),
        0 <= c < level_sizes(n, b).len() - 1,
        0 <= p < level_sizes(n, b)[c + 1],
    ensures
        level_start(n, b, c) <= group_start(n, b, c, p) < group_end(n, b, c, p) <= level_end(n, b, c),
        level_end(n, b, c) <= total_nodes(n, b),
        total_nodes(n, b) <= usize::MAX,
        p * b < level_sizes(n, b)[c],
{
    lemma_level_sizes(n, b);
    lemma_level_positions(n, b);
    let csize = level_sizes(n, b)[c];
    let psize = level_sizes(n, b)[c + 1];
    lemma_groups(csize, b);
    assert(0 <= p * b < csize && p * b < min_int((p + 1) * b, csize as int) <= csize)
        by (nonlinear_arith)
        requires
            0 <= p < psize,
            (psize - 1) * b < csize,
            b >= 2,
    ;
}

/// A child that matches has a parent that matches.
pub(crate) proof fn lemma_parent_matches(q: Query, parent: NodeItem, child: NodeItem)
    requires
        covers(parent, child),
        query_matches(q, child),
        q is BBox ==> no_nan(child),
    ensures
        query_matches(q, parent),
{
    match q {
        Query::BBox(min_x, min_y, max_x, max_y) => {
            let bx = NodeItem { min_x, min_y, max_x, max_y, offset: 0 };
            assert(spec_intersects(bx, child));
        },
        Query::PointIntersects(x, y) => {
            assert(spec_contains_point(child, x, y));
        },
    }
}

/// On a level above the leaves, the visit of positions `lo..hi` adds the
/// entries for the matching nodes.
proof fn lemma_pushes_on_inner_level(
    nodes: Seq<NodeItem>,
    leaves: Seq<NodeItem>,
    b: nat,
    q: Query,
    l: int,
    lo: int,
    hi: int,
)
    requires
        well_built(nodes, leaves, b),
        shape_ok(leaves.len(), b),
        1 <= l < level_sizes(leaves.len(), b).len(),
        0 <= lo <= hi <= level_sizes(leaves.len(), b)[l],
    ensures
        range_pushes(
            nodes,
            leaves.len(),
            b,
            q,
            level_start(leaves.len(), b, l) + lo,
            level_start(leaves.len(), b, l) + hi,
            l,
        ) == level_matches(nodes, leaves.len(), b, q, l, lo, hi),
    decreases hi - lo,
{
    let n = leaves.len();
    if lo < hi {
        lemma_pushes_on_inner_level(nodes, leaves, b, q, l, lo, hi - 1);
        lemma_built_facts(nodes, leaves, b);
        lemma_inner_node(nodes, leaves, b, l, hi - 1);
        assert(level_end(n, b, l) <= leaf_start(n, b));
        let p = level_start(n, b, l) + hi - 1;
        assert(p < leaf_start(n, b));
        assert(nodes[p].offset as usize == group_start(n, b, l - 1, hi - 1) as usize);
    }
}

/// On a level above the leaves, no leaf is reported.
proof fn lemma_no_hits_above_leaves(
    nodes: Seq<NodeItem>,
    n: nat,
    b: nat,
    q: Query,
    lo: int,
    hi: int,
)
    requires
        hi <= leaf_start(n, b),
    ensures
        range_hits(nodes, n, b, q, lo, hi) == Seq::<SearchResultItem>::empty(),
    decreases hi - lo,
{
    if lo < hi {
        lemma_no_hits_above_leaves(nodes, n, b, q, lo, hi - 1);
    }
}

/// On the leaf level, no entry is added.
proof fn lemma_no_pushes_on_leaves(
    nodes: Seq<NodeItem>,
    n: nat,
    b: nat,
    q: Query,
    lo: int,
    hi: int,
    l: int,
)
    requires
        lo >= leaf_start(n, b),
    ensures
        range_pushes(nodes, n, b, q, lo, hi, l) == Seq::<(usize, usize)>::empty(),
    decreases hi - lo,
{
    if lo < hi {
        lemma_no_pushes_on_leaves(nodes, n, b, q, lo, hi - 1, l);
    }
}

/// On the leaf level, the visit of positions `lo..hi` reports the matching
/// leaves.
proof fn lemma_hits_on_leaves(
    nodes: Seq<NodeItem>,
    leaves: Seq<NodeItem>,
    b: nat,
    q: Query,
    lo: int,
    hi: int,
)
    requires
        well_built(nodes, leaves, b),
        shape_ok(leaves.len(), b),
        0 <= lo <= hi <= leaves.len(),
    ensures
        range_hits(
            nodes,
            leaves.len(),
            b,
            q,
            leaf_start(leaves.len(), b) + lo,
            leaf_start(leaves.len(), b) + hi,
        ) == matching_leaves(leaves, q, lo, hi),
    decreases hi - lo,
{
    let n = leaves.len();
    if lo < hi {
        lemma_hits_on_leaves(nodes, leaves, b, q, lo, hi - 1);
        assert(nodes[leaf_start(n, b) + (hi - 1)] == leaves[hi - 1]);
    }
}

/// The children of a parent that does not match contain no match.
proof fn lemma_dead_group_inner(
    nodes: Seq<NodeItem>,
    leaves: Seq<NodeItem>,
    b: nat,
    q: Query,
    l: int,
    p: int,
    lo: int,
    hi: int,
)
    requires
        well_built(nodes, leaves, b),
        shape_ok(leaves.len(), b),
        1 <= l < level_sizes(leaves.len(), b).len() - 1,
        0 <= p < level_sizes(leaves.len(), b)[l + 1],
        !query_matches(q, nodes[level_start(leaves.len(), b, l + 1) + p]),
        group_start(leaves.len(), b, l, p) - level_start(leaves.len(), b, l) <= lo <= hi,
        hi <= group_end(leaves.len(), b, l, p) - level_start(leaves.len(), b, l),
    ensures
        level_matches(nodes, leaves.len(), b, q, l, lo, hi) == Seq::<(usize, usize)>::empty(),
    decreases hi - lo,
{
    let n = leaves.len();
    if lo < hi {
        lemma_dead_group_inner(nodes, leaves, b, q, l, p, lo, hi - 1);
        lemma_inner_node(nodes, leaves, b, l + 1, p);
        lemma_groups_local(n, b, l, p);
        lemma_inner_node(nodes, leaves, b, l, hi - 1);
        let child = nodes[level_start(n, b, l) + hi - 1];
        assert(covers(nodes[level_start(n, b, l + 1) + p], child));
        if query_matches(q, child) {
            lemma_parent_matches(q, nodes[level_start(n, b, l + 1) + p], child);
        }
    }
}

/// The leaves under a parent that does not match contain no match.
proof fn lemma_dead_group_leaves(
    nodes: Seq<NodeItem>,
    leaves: Seq<NodeItem>,
    b: nat,
    q: Query,
    p: int,
    lo: int,
    hi: int,
)
    requires
        well_built(nodes, leaves, b),
        shape_ok(leaves.len(), b),
        query_exact_on(q, leaves),
        0 <= p < level_sizes(leaves.len(), b)[1],
        !query_matches(q, nodes[level_start(leaves.len(), b, 1) + p]),
        group_start(leaves.len(), b, 0, p) - leaf_start(leaves.len(), b) <= lo <= hi,
        hi <= group_end(leaves.len(), b, 0, p) - leaf_start(leaves.len(), b),
    ensures
        matching_leaves(leaves, q, lo, hi) == Seq::<SearchResultItem>::empty(),
    decreases hi - lo,
{
    let n = leaves.len();
    if lo < hi {
        lemma_dead_group_leaves(nodes, leaves, b, q, p, lo, hi - 1);
        lemma_level_sizes(n, b);
        lemma_inner_node(nodes, leaves, b, 1, p);
        lemma_groups_local(n, b, 0, p);
        let child = nodes[leaf_start(n, b) + (hi - 1)];
        assert(child == leaves[hi - 1]);
        assert(covers(nodes[level_start(n, b, 1) + p], child));
        if query_matches(q, child) {
            lemma_parent_matches(q, nodes[level_start(n, b, 1) + p], child);
        }
    }
}

/// One round on a level above the leaves: visiting the entries for the
/// matching nodes of level `l + 1` adds the entries for the matching nodes
/// of level `l`, and reports no leaf.
proof fn lemma_round_inner(
    nodes: Seq<NodeItem>,
    leaves: Seq<NodeItem>,
    b: nat,
    q: Query,
    l: int,
    m: int,
)
    requires
        well_built(nodes, leaves, b),
        shape_ok(leaves.len(), b),
        1 <= l < level_sizes(leaves.len(), b).len() - 1,
        0 <= m <= level_sizes(leaves.len(), b)[l + 1],
    ensures
        frontier_pushes(
            nodes,
            leaves.len(),
            b,
            q,
            level_matches(nodes, leaves.len(), b, q, l + 1, 0, m),
        ) == level_matches(
            nodes,
            leaves.len(),
            b,
            q,
            l,
            0,
            min_int(m * b, level_sizes(leaves.len(), b)[l] as int),
        ),
        frontier_hits(
            nodes,
            leaves.len(),
            b,
            q,
            level_matches(nodes, leaves.len(), b, q, l + 1, 0, m),
        ) == Seq::<SearchResultItem>::empty(),
    decreases m,
{
    let n = leaves.len();
    let s_l = level_sizes(n, b)[l] as int;
    if m == 0 {
        assert(min_int(0 * (b as int), s_l) == 0);
    } else {
        lemma_round_inner(nodes, leaves, b, q, l, m - 1);
        lemma_built_facts(nodes, leaves, b);
        lemma_groups_local(n, b, l, m - 1);
        let st = level_start(n, b, l);
        let p = m - 1;
        assert(p * b + b == m * b) by (nonlinear_arith)
            requires
                p == m - 1,
        ;
        let lo = p * b;
        let hi = min_int(m * b, s_l);
        assert(min_int(p * b, s_l) == lo);
        let e = (group_start(n, b, l, p) as usize, l as usize);
        let prev = level_matches(nodes, n, b, q, l + 1, 0, p);
        let cur = level_matches(nodes, n, b, q, l + 1, 0, m);
        assert(entry_end(n, b, e) == st + hi);
        lemma_level_matches_concat(nodes, n, b, q, l, 0, lo, hi);
        lemma_no_hits_above_leaves(nodes, n, b, q, st + lo, st + hi);
        assert(level_end(n, b, l) <= leaf_start(n, b));
        if query_matches(q, nodes[level_start(n, b, l + 1) + p]) {
            assert(cur == prev.push(e));
            assert(cur.drop_last() =~= prev);
            lemma_pushes_on_inner_level(nodes, leaves, b, q, l, lo, hi);
        } else {
            assert(cur =~= prev);
            lemma_dead_group_inner(nodes, leaves, b, q, l, p, lo, hi);
            assert(level_matches(nodes, n, b, q, l, 0, lo) + Seq::<(usize, usize)>::empty()
                =~= level_matches(nodes, n, b, q, l, 0, lo));
        }
    }
}

/// The last round: visiting the entries for the matching nodes of level 1
/// reports the matching leaves and adds no entry.
proof fn lemma_round_leaves(nodes: Seq<NodeItem>, leaves: Seq<NodeItem>, b: nat, q: Query, m: int)
    requires
        well_built(nodes, leaves, b),
        shape_ok(leaves.len(), b),
        query_exact_on(q, leaves),
        0 <= m <= level_sizes(leaves.len(), b)[1],
    ensures
        frontier_pushes(
            nodes,
            leaves.len(),
            b,
            q,
            level_matches(nodes, leaves.len(), b, q, 1, 0, m),
        ) == Seq::<(usize, usize)>::empty(),
        frontier_hits(
            nodes,
            leaves.len(),
            b,
            q,
            level_matches(nodes, leaves.len(), b, q, 1, 0, m),
        ) == matching_leaves(leaves, q, 0, min_int(m * b, leaves.len() as int)),
    decreases m,
{
    let n = leaves.len();
    lemma_built_facts(nodes, leaves, b);
    if m == 0 {
        assert(min_int(0 * (b as int), n as int) == 0);
    } else {
        lemma_round_leaves(nodes, leaves, b, q, m - 1);
        lemma_groups_local(n, b, 0, m - 1);
        let st = leaf_start(n, b);
        let p = m - 1;
        assert(p * b + b == m * b) by (nonlinear_arith)
            requires
                p == m - 1,
        ;
        let lo = p * b;
        let hi = min_int(m * b, n as int);
        assert(min_int(p * b, n as int) == lo);
        let e = (group_start(n, b, 0, p) as usize, 0usize);
        let prev = level_matches(nodes, n, b, q, 1, 0, p);
        let cur = level_matches(nodes, n, b, q, 1, 0, m);
        assert(entry_end(n, b, e) == st + hi);
        lemma_matching_leaves_concat(leaves, q, 0, lo, hi);
        lemma_no_pushes_on_leaves(nodes, n, b, q, st + lo, st + hi, 0);
        if query_matches(q, nodes[level_start(n, b, 1) + p]) {
            assert(cur == prev.push(e));
            assert(cur.drop_last() =~= prev);
            lemma_hits_on_leaves(nodes, leaves, b, q, lo, hi);
        } else {
            assert(cur =~= prev);
            lemma_dead_group_leaves(nodes, leaves, b, q, p, lo, hi);
            assert(matching_leaves(leaves, q, 0, lo) + Seq::<SearchResultItem>::empty()
                =~= matching_leaves(leaves, q, 0, lo));
        }
    }
}

/// Round `j` (from 1 on) visits the groups of children of the matching
/// nodes on level `top - j + 1`.
proof fn lemma_frontier_shape(nodes: Seq<NodeItem>, leaves: Seq<NodeItem>, b: nat, q: Query, j: nat)
    requires
        well_built(nodes, leaves, b),
        shape_ok(leaves.len(), b),
        1 <= j <= top_level(leaves.len(), b),
    ensures
        frontier(nodes, leaves.len(), b, q, j) == level_matches(
            nodes,
            leaves.len(),
            b,
            q,
            top_level(leaves.len(), b) - j + 1,
            0,
            level_sizes(leaves.len(), b)[top_level(leaves.len(), b) - j + 1] as int,
        ),
    decreases j,
{
    let n = leaves.len();
    let top = top_level(n, b) as int;
    lemma_built_facts(nodes, leaves, b);
    lemma_level_sizes(n, b);
    if j == 1 {
        let e = (0usize, top as usize);
        assert(frontier(nodes, n, b, q, 0) == seq![e]);
        assert(seq![e].drop_last() =~= Seq::<(usize, usize)>::empty());
        assert(entry_end(n, b, e) == 1);
        lemma_pushes_on_inner_level(nodes, leaves, b, q, top, 0, 1);
        assert(frontier(nodes, n, b, q, 1) == frontier_pushes(nodes, n, b, q, seq![e]));
        assert(seq![e].last() == e);
        assert(frontier_pushes(nodes, n, b, q, Seq::<(usize, usize)>::empty()) =~= Seq::<
            (usize, usize),
        >::empty());
        assert(frontier_pushes(nodes, n, b, q, seq![e]) =~= range_pushes(nodes, n, b, q, 0, 1, top));
    } else {
        lemma_frontier_shape(nodes, leaves, b, q, (j - 1) as nat);
        let l = top - j + 1;
        let s_l = level_sizes(n, b)[l] as int;
        let s_up = level_sizes(n, b)[l + 1] as int;
        lemma_round_inner(nodes, leaves, b, q, l, s_up);
        lemma_groups(s_l as nat, b);
        let kk = l;
        assert(level_sizes(n, b)[kk + 1] == crate::levels::ceil_div(level_sizes(n, b)[kk], b));
        assert(min_int(s_up * b, s_l) == s_l);
        assert(frontier(nodes, n, b, q, (j - 1) as nat) == level_matches(nodes, n, b, q, l + 1, 0, s_up));
        assert(frontier(nodes, n, b, q, j) == frontier_pushes(nodes, n, b, q, frontier(nodes, n, b, q, (j - 1) as nat)));
    }
}

/// No leaf is reported before the last round.
proof fn lemma_no_early_hits(nodes: Seq<NodeItem>, leaves: Seq<NodeItem>, b: nat, q: Query, j: nat)
    requires
        well_built(nodes, leaves, b),
        shape_ok(leaves.len(), b),
        j <= top_level(leaves.len(), b),
    ensures
        hits_upto(nodes, leaves.len(), b, q, j) == Seq::<SearchResultItem>::empty(),
    decreases j,
{
    let n = leaves.len();
    let top = top_level(n, b) as int;
    lemma_built_facts(nodes, leaves, b);
    if j > 0 {
        lemma_no_early_hits(nodes, leaves, b, q, (j - 1) as nat);
        if j == 1 {
            let e = (0usize, top as usize);
            assert(frontier(nodes, n, b, q, 0) == seq![e]);
            assert(seq![e].drop_last() =~= Seq::<(usize, usize)>::empty());
            assert(seq![e].last() == e);
            assert(entry_end(n, b, e) == 1);
            lemma_no_hits_above_leaves(nodes, n, b, q, 0, entry_end(n, b, e));
            assert(frontier_hits(nodes, n, b, q, Seq::<(usize, usize)>::empty()) =~= Seq::<
                SearchResultItem,
            >::empty());
            assert(frontier_hits(nodes, n, b, q, seq![e]) =~= Seq::<SearchResultItem>::empty());
            assert(hits_upto(nodes, n, b, q, 0) =~= Seq::<SearchResultItem>::empty());
        } else {
            lemma_frontier_shape(nodes, leaves, b, q, (j - 1) as nat);
            let l = top - (j - 1);
            lemma_round_inner(nodes, leaves, b, q, l, level_sizes(n, b)[l + 1] as int);
        }
    }
}

/// A search of a tree built over `leaves` reports exactly the leaves that
/// match the query, in their order, each with its offset and its position
/// among the leaves; it never fails.  For a box query this holds when no
/// leaf coordinate is a NaN.
pub proof fn lemma_search_built_tree(nodes: Seq<NodeItem>, leaves: Seq<NodeItem>, b: nat, q: Query)
    requires
        well_built(nodes, leaves, b),
        shape_ok(leaves.len(), b),
        query_exact_on(q, leaves),
    ensures
        spec_search(nodes, leaves.len(), b, q) == Some(matching_leaves(leaves, q, 0, leaves.len() as int)),
{
    let n = leaves.len();
    let top = top_level(n, b);
    lemma_built_facts(nodes, leaves, b);
    lemma_level_sizes(n, b);
    lemma_frontier_shape(nodes, leaves, b, q, top);
    lemma_round_leaves(nodes, leaves, b, q, level_sizes(n, b)[1] as int);
    lemma_no_early_hits(nodes, leaves, b, q, top);
    lemma_groups(n, b);
    let kk = 0int;
    assert(level_sizes(n, b)[kk + 1] == crate::levels::ceil_div(level_sizes(n, b)[kk], b));
    assert(min_int((level_sizes(n, b)[1] * b) as int, n as int) == n);
    assert(hits_upto(nodes, n, b, q, top + 1) =~= matching_leaves(leaves, q, 0, n as int));
}

/// Covering is transitive.
proof fn lemma_covers_trans(a: NodeItem, m: NodeItem, x: NodeItem)
    requires
        covers(a, m),
        covers(m, x),
    ensures
        covers(a, x),
{
}

/// The node stored at `pc` on level `c` below the root is covered by its
/// parent, which lies on level `c + 1`.
proof fn lemma_parent_covers(nodes: Seq<NodeItem>, leaves: Seq<NodeItem>, b: nat, c: int, pc: int)
    requires
        well_built(nodes, leaves, b),
        shape_ok(leaves.len(), b),
        0 <= c < top_level(leaves.len(), b),
        level_start(leaves.len(), b, c) <= pc < level_end(leaves.len(), b, c),
    ensures
        ({
            let n = leaves.len();
            let pp = level_start(n, b, c + 1) + (pc - level_start(n, b, c)) / (b as int);
            &&& level_start(n, b, c + 1) <= pp < level_end(n, b, c + 1)
            &&& covers(nodes[pp], nodes[pc])
        }),
{
    let n = leaves.len();
    lemma_built_facts(nodes, leaves, b);
    lemma_level_sizes(n, b);
    lemma_level_positions(n, b);
    let r = pc - level_start(n, b, c);
    let size = level_sizes(n, b)[c];
    let up = level_sizes(n, b)[c + 1];
    assert(up == crate::levels::ceil_div(size, b));
    lemma_groups(size, b);
    let p = r / (b as int);
    assert(0 <= p && p * b <= r && r < (p + 1) * b) by (nonlinear_arith)
        requires
            b >= 2,
            r >= 0,
            p == r / (b as int),
    ;
    assert(p < up) by (nonlinear_arith)
        requires
            p * b <= r,
            r < size,
            size <= up * b,
            b >= 2,
    ;
    lemma_inner_node(nodes, leaves, b, c + 1, p);
    assert(group_start(n, b, c, p) <= pc < group_end(n, b, c, p));
}

/// The root covers every node of level `l` and of the levels above it.
proof fn lemma_root_covers_level(nodes: Seq<NodeItem>, leaves: Seq<NodeItem>, b: nat, l: int)
    requires
        well_built(nodes, leaves, b),
        shape_ok(leaves.len(), b),
        0 <= l <= top_level(leaves.len(), b),
    ensures
        forall|pc: int|
            level_start(leaves.len(), b, l) <= pc < level_end(leaves.len(), b, l) ==> covers(
                nodes[0],
                #[trigger] nodes[pc],
            ),
    decreases top_level(leaves.len(), b) - l,
{
    let n = leaves.len();
    let top = top_level(n, b) as int;
    lemma_built_facts(nodes, leaves, b);
    lemma_level_sizes(n, b);
    lemma_level_positions(n, b);
    if l == top {
        lemma_inner_node(nodes, leaves, b, top, 0);
        assert(level_end(n, b, top) == 1);
        assert forall|pc: int| level_start(n, b, l) <= pc < level_end(n, b, l) implies covers(
            nodes[0],
            #[trigger] nodes[pc],
        ) by {
            assert(pc == 0);
        }
    } else {
        lemma_root_covers_level(nodes, leaves, b, l + 1);
        assert forall|pc: int| level_start(n, b, l) <= pc < level_end(n, b, l) implies covers(
            nodes[0],
            #[trigger] nodes[pc],
        ) by {
            lemma_parent_covers(nodes, leaves, b, l, pc);
            let pp = level_start(n, b, l + 1) + (pc - level_start(n, b, l)) / (b as int);
            lemma_covers_trans(nodes[0], nodes[pp], nodes[pc]);
        }
    }
}

/// The root of a built tree covers every leaf: its box reaches at least
/// as far as each non-NaN coordinate of each leaf, and has no NaN
/// coordinate itself.
pub proof fn lemma_root_covers_leaves(nodes: Seq<NodeItem>, leaves: Seq<NodeItem>, b: nat)
    requires
        well_built(nodes, leaves, b),
        shape_ok(leaves.len(), b),
    ensures
        forall|i: int| 0 <= i < leaves.len() ==> covers(nodes[0], #[trigger] leaves[i]),
{
    let n = leaves.len();
    lemma_built_facts(nodes, leaves, b);
    lemma_level_positions(n, b);
    lemma_root_covers_level(nodes, leaves, b, 0);
    assert forall|i: int| 0 <= i < leaves.len() implies covers(nodes[0], #[trigger] leaves[i]) by {
        assert(nodes[leaf_start(n, b) + i] == leaves[i]);
    }
}

} // verus!
