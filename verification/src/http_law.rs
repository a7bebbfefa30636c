//! A search over HTTP of a built tree finds the byte ranges of exactly the
//! features whose leaves match the query.

use crate::covering::no_nan;
use crate::http::HttpRange;
use crate::http_search::{
    child_range, drop_empty, enqueue, leaf_range, visit_item, visit_items, wrap_add,
    HttpProgress, HttpSearchConfig, NodeRange,
};
use crate::levels::{
    ceil_div, lemma_groups, lemma_level_positions, lemma_level_sizes, level_end, level_sizes,
    level_start, shape_ok, total_nodes,
};
use crate::node::{
    lemma_node_from_bytes_slice, lemma_nodes_bytes_roundtrip, nodes_bytes, nodes_from_bytes, NodeItem,
};
use crate::search::{query_matches, top_level, Query};
use crate::search_law::{
    lemma_built_facts, lemma_groups_local, lemma_inner_node, lemma_parent_matches, query_exact_on,
};
use crate::tree::{group_end, group_start, leaf_start, min_int, well_built};
use vstd::prelude::*;

verus! {

/// The byte ranges of the features of the leaves among `leaves[0..hi]`
/// that match the query, in order: a leaf's range reaches up to the
/// feature of the next leaf, and is open for the last leaf.
pub open spec fn feature_ranges(feature_begin: usize, leaves: Seq<NodeItem>, q: Query, hi: int) -> Seq<
    HttpRange,
>
    decreases hi,
{
    if hi <= 0 {
        Seq::empty()
    } else {
        let i = hi - 1;
        let start = wrap_add(feature_begin, leaves[i].offset as usize);
        feature_ranges(feature_begin, leaves, q, i) + if query_matches(q, leaves[i]) {
            seq![
                if i + 1 < leaves.len() {
                    HttpRange::Range(
                        core::ops::Range {
                            start,
                            end: wrap_add(feature_begin, leaves[i + 1].offset as usize),
                        },
                    )
                } else {
                    HttpRange::RangeFrom(start)
                },
            ]
        } else {
            Seq::empty()
        }
    }
}

/// The runs a search starts with: the root alone, or none for a tree
/// without leaves.
pub open spec fn first_runs(c: HttpSearchConfig) -> Seq<NodeRange> {
    if c.num_items == 0 {
        Seq::empty()
    } else {
        seq![
            NodeRange {
                level: top_level(c.num_items as nat, c.node_size as nat) as usize,
                start: 0,
                end: 1,
            },
        ]
    }
}

/// One request and its answer: the next non-empty run is fetched from the
/// index `nodes` and its nodes are looked at.
pub open spec fn fetch_step(c: HttpSearchConfig, nodes: Seq<NodeItem>, p: HttpProgress) -> HttpProgress {
    let rest = drop_empty(p.pending);
    if rest.len() == 0 {
        HttpProgress { pending: rest, found: p.found }
    } else {
        visit_items(
            c,
            rest[0].level as nat,
            nodes.subrange(rest[0].start as int, rest[0].end as int),
            (rest[0].end - rest[0].start) as nat,
            HttpProgress { pending: rest.drop_first(), found: p.found },
        )
    }
}

/// `k` requests and their answers.
pub open spec fn fetch_steps(c: HttpSearchConfig, nodes: Seq<NodeItem>, p: HttpProgress, k: nat) -> HttpProgress
    decreases k,
{
    if k == 0 {
        p
    } else {
        fetch_steps(c, nodes, fetch_step(c, nodes, p), (k - 1) as nat)
    }
}

/// The parent of a matching node below the root matches, and its group
/// of children holds the node.
proof fn lemma_parent_position(
    s: Seq<NodeItem>,
    leaves: Seq<NodeItem>,
    b: nat,
    q: Query,
    c: int,
    pc: int,
)
    requires
        well_built(s, leaves, b),
        shape_ok(leaves.len(), b),
        query_exact_on(q, leaves),
        0 <= c < top_level(leaves.len(), b),
        level_start(leaves.len(), b, c) <= pc < level_end(leaves.len(), b, c),
        query_matches(q, s[pc]),
    ensures
        ({
            let n = leaves.len();
            let p = (pc - level_start(n, b, c)) / (b as int);
            &&& 0 <= p < level_sizes(n, b)[c + 1]
            &&& query_matches(q, s[level_start(n, b, c + 1) + p])
            &&& group_start(n, b, c, p) <= pc < group_end(n, b, c, p)
            &&& s[level_start(n, b, c + 1) + p].offset == group_start(n, b, c, p) as u64
        }),
{
    let n = leaves.len();
    lemma_built_facts(s, leaves, b);
    lemma_level_sizes(n, b);
    lemma_level_positions(n, b);
    let r = pc - level_start(n, b, c);
    let size = level_sizes(n, b)[c];
    let up = level_sizes(n, b)[c + 1];
    assert(up == ceil_div(size, b));
    lemma_groups(size, b);
    let p = r / (b as int);
    assert(0 <= p && p * b <= r && r < (p + 1) * b) by (nonlinear_arith)
        requires
            b >= 2,
            r >= 0,
            p == r / (b as int),
    ;
    assert(p < up) by (nonlinear_arith)
        requires
            p * b <= r,
            r < size,
            size <= up * b,
            b >= 2,
    ;
    lemma_inner_node(s, leaves, b, c + 1, p);
    assert(group_start(n, b, c, p) <= pc < group_end(n, b, c, p));
    if c == 0 {
        assert(s[leaf_start(n, b) + r] == leaves[r]);
    } else {
        lemma_inner_node(s, leaves, b, c, r);
    }
    assert(q is BBox ==> no_nan(s[pc]));
    lemma_parent_matches(q, s[level_start(n, b, c + 1) + p], s[pc]);
}

/// The planned runs after each matching node among positions `lo..hi` of
/// level `l`, in order, has planned the run of its children onto `y`.
pub open spec fn plan_fold(
    c: HttpSearchConfig,
    s: Seq<NodeItem>,
    l: int,
    y: Seq<NodeRange>,
    lo: int,
    hi: int,
) -> Seq<NodeRange>
    decreases hi - lo,
{
    if hi <= lo {
        y
    } else {
        let prev = plan_fold(c, s, l, y, lo, hi - 1);
        if query_matches(c.query, s[hi - 1]) {
            enqueue(c.combine_request_threshold, prev, child_range(c, s[hi - 1], (l - 1) as nat))
        } else {
            prev
        }
    }
}

/// The feature ranges of the matching leaves among positions `lo..hi` of
/// the index, each closed by the next node of the index when there is one.
pub open spec fn leaf_hits(c: HttpSearchConfig, s: Seq<NodeItem>, lo: int, hi: int) -> Seq<HttpRange>
    decreases hi - lo,
{
    if hi <= lo {
        Seq::empty()
    } else {
        leaf_hits(c, s, lo, hi - 1) + if query_matches(c.query, s[hi - 1]) {
            seq![leaf_range(c.feature_begin, s, hi - 1)]
        } else {
            Seq::empty()
        }
    }
}

/// The progress after fetching and looking at each run of `x` in turn.
pub open spec fn round(c: HttpSearchConfig, s: Seq<NodeItem>, x: Seq<NodeRange>, p: HttpProgress) -> HttpProgress
    decreases x.len(),
{
    if x.len() == 0 {
        p
    } else {
        round(
            c,
            s,
            x.drop_first(),
            visit_items(
                c,
                x[0].level as nat,
                s.subrange(x[0].start as int, x[0].end as int),
                (x[0].end - x[0].start) as nat,
                p,
            ),
        )
    }
}

proof fn lemma_plan_fold_concat(
    c: HttpSearchConfig,
    s: Seq<NodeItem>,
    l: int,
    y: Seq<NodeRange>,
    lo: int,
    mid: int,
    hi: int,
)
    requires
        lo <= mid <= hi,
    ensures
        plan_fold(c, s, l, plan_fold(c, s, l, y, lo, mid), mid, hi) == plan_fold(c, s, l, y, lo, hi),
    decreases hi - mid,
{
    if mid < hi {
        lemma_plan_fold_concat(c, s, l, y, lo, mid, hi - 1);
    }
}

proof fn lemma_plan_fold_gap(
    c: HttpSearchConfig,
    s: Seq<NodeItem>,
    l: int,
    y: Seq<NodeRange>,
    lo: int,
    hi: int,
)
    requires
        forall|pp: int| lo <= pp < hi ==> !query_matches(c.query, #[trigger] s[pp]),
    ensures
        plan_fold(c, s, l, y, lo, hi) == y,
    decreases hi - lo,
{
    if lo < hi {
        lemma_plan_fold_gap(c, s, l, y, lo, hi - 1);
        assert(!query_matches(c.query, s[hi - 1]));
    }
}

proof fn lemma_leaf_hits_concat(c: HttpSearchConfig, s: Seq<NodeItem>, lo: int, mid: int, hi: int)
    requires
        lo <= mid <= hi,
    ensures
        leaf_hits(c, s, lo, mid) + leaf_hits(c, s, mid, hi) == leaf_hits(c, s, lo, hi),
    decreases hi - mid,
{
    if mid < hi {
        lemma_leaf_hits_concat(c, s, lo, mid, hi - 1);
        assert(leaf_hits(c, s, lo, mid) + leaf_hits(c, s, mid, hi) =~= leaf_hits(c, s, lo, hi));
    } else {
        assert(leaf_hits(c, s, lo, mid) + leaf_hits(c, s, mid, hi) =~= leaf_hits(c, s, lo, hi));
    }
}

proof fn lemma_leaf_hits_gap(c: HttpSearchConfig, s: Seq<NodeItem>, lo: int, hi: int)
    requires
        forall|pp: int| lo <= pp < hi ==> !query_matches(c.query, #[trigger] s[pp]),
    ensures
        leaf_hits(c, s, lo, hi) == Seq::<HttpRange>::empty(),
    decreases hi - lo,
{
    if lo < hi {
        lemma_leaf_hits_gap(c, s, lo, hi - 1);
        assert(!query_matches(c.query, s[hi - 1]));
        assert(leaf_hits(c, s, lo, hi) =~= Seq::<HttpRange>::empty());
    }
}

/// Looking at the nodes of a run on a level above the leaves plans the
/// runs of the children of its matching nodes.
proof fn lemma_visit_inner_run(
    c: HttpSearchConfig,
    s: Seq<NodeItem>,
    l: int,
    a: int,
    e: int,
    k: int,
    y: Seq<NodeRange>,
    f: Seq<HttpRange>,
)
    requires
        l >= 1,
        0 <= a <= e <= s.len(),
        0 <= k <= e - a,
    ensures
        visit_items(c, l as nat, s.subrange(a, e), k as nat, HttpProgress { pending: y, found: f })
            == (HttpProgress { pending: plan_fold(c, s, l, y, a, a + k), found: f }),
    decreases k,
{
    if k > 0 {
        lemma_visit_inner_run(c, s, l, a, e, k - 1, y, f);
        assert(s.subrange(a, e)[k - 1] == s[a + k - 1]);
    }
}

/// Looking at the nodes of a run of leaves reports the feature ranges of
/// its matching leaves, when the run holds the node after each of them.
proof fn lemma_visit_leaf_run(
    c: HttpSearchConfig,
    s: Seq<NodeItem>,
    a: int,
    e: int,
    k: int,
    y: Seq<NodeRange>,
    f: Seq<HttpRange>,
)
    requires
        0 <= a <= e <= s.len(),
        0 <= k <= e - a,
        forall|pp: int|
            a <= pp < e && pp + 1 < s.len() && query_matches(c.query, #[trigger] s[pp]) ==> pp + 1 < e,
    ensures
        visit_items(c, 0, s.subrange(a, e), k as nat, HttpProgress { pending: y, found: f })
            == (HttpProgress { pending: y, found: f + leaf_hits(c, s, a, a + k) }),
    decreases k,
{
    if k > 0 {
        lemma_visit_leaf_run(c, s, a, e, k - 1, y, f);
        let items = s.subrange(a, e);
        let pp = a + k - 1;
        assert(items[k - 1] == s[pp]);
        if query_matches(c.query, s[pp]) {
            if k < items.len() {
                assert(items[k] == s[pp + 1]);
            }
            assert(leaf_range(c.feature_begin, items, k - 1) == leaf_range(c.feature_begin, s, pp));
            assert(f + leaf_hits(c, s, a, a + k) =~= (f + leaf_hits(c, s, a, a + k - 1)).push(
                leaf_range(c.feature_begin, s, pp),
            ));
        } else {
            assert(f + leaf_hits(c, s, a, a + k) =~= f + leaf_hits(c, s, a, a + k - 1));
        }
    } else {
        assert(f + leaf_hits(c, s, a, a) =~= f);
    }
}

/// The runs lie on level `l`, each non-empty and inside the level, in
/// order with gaps between them.
spec fn runs_ok(c: HttpSearchConfig, l: int, x: Seq<NodeRange>) -> bool {
    let n = c.num_items as nat;
    let b = c.node_size as nat;
    &&& forall|i: int|
        0 <= i < x.len() ==> {
            &&& (#[trigger] x[i]).level == l
            &&& level_start(n, b, l) <= x[i].start < x[i].end <= level_end(n, b, l)
        }
    &&& forall|i: int, j: int| 0 <= i < j < x.len() ==> (#[trigger] x[i]).end < (#[trigger] x[j]).start
}

/// Every matching node among positions `lo..` of level `l` lies in a run.
spec fn covered(c: HttpSearchConfig, s: Seq<NodeItem>, l: int, x: Seq<NodeRange>, lo: int) -> bool {
    forall|pp: int|
        lo <= pp < level_end(c.num_items as nat, c.node_size as nat, l) && query_matches(
            c.query,
            #[trigger] s[pp],
        ) ==> exists|j: int| 0 <= j < x.len() && (#[trigger] x[j]).start <= pp < x[j].end
}

/// The node after each matching node from position `lo` on lies in the
/// same run, unless it is the last node of the index.
spec fn next_covered(c: HttpSearchConfig, s: Seq<NodeItem>, x: Seq<NodeRange>, lo: int) -> bool {
    forall|pp: int|
        lo <= pp && pp + 1 < s.len() && query_matches(c.query, #[trigger] s[pp]) ==> exists|j: int|
            0 <= j < x.len() && (#[trigger] x[j]).start <= pp && pp + 1 < x[j].end
}

/// Fetching the runs of a level above the leaves, in order, plans what
/// the matching nodes of the whole level plan.
proof fn lemma_round_inner(
    c: HttpSearchConfig,
    s: Seq<NodeItem>,
    l: int,
    x: Seq<NodeRange>,
    lo: int,
)
    requires
        l >= 1,
        level_end(c.num_items as nat, c.node_size as nat, l) <= s.len(),
        level_start(c.num_items as nat, c.node_size as nat, l) <= lo,
        lo <= level_end(c.num_items as nat, c.node_size as nat, l),
        runs_ok(c, l, x),
        x.len() > 0 ==> lo <= x[0].start,
        covered(c, s, l, x, lo),
    ensures
        round(
            c,
            s,
            x,
            HttpProgress {
                pending: plan_fold(
                    c,
                    s,
                    l,
                    Seq::empty(),
                    level_start(c.num_items as nat, c.node_size as nat, l) as int,
                    lo,
                ),
                found: Seq::empty(),
            },
        ) == (HttpProgress {
            pending: plan_fold(
                c,
                s,
                l,
                Seq::empty(),
                level_start(c.num_items as nat, c.node_size as nat, l) as int,
                level_end(c.num_items as nat, c.node_size as nat, l) as int,
            ),
            found: Seq::empty(),
        }),
    decreases x.len(),
{
    let n = c.num_items as nat;
    let b = c.node_size as nat;
    let ls = level_start(n, b, l) as int;
    let le = level_end(n, b, l) as int;
    let empty = Seq::<NodeRange>::empty();
    if x.len() == 0 {
        assert forall|pp: int| lo <= pp < le implies !query_matches(c.query, #[trigger] s[pp]) by {
            if query_matches(c.query, s[pp]) {
                let j = choose|j: int| 0 <= j < x.len() && (#[trigger] x[j]).start <= pp < x[j].end;
            }
        }
        lemma_plan_fold_gap(c, s, l, plan_fold(c, s, l, empty, ls, lo), lo, le);
        lemma_plan_fold_concat(c, s, l, empty, ls, lo, le);
    } else {
        let r = x[0];
        assert(r.level == l && ls <= r.start < r.end <= le);
        assert forall|pp: int| lo <= pp < r.start implies !query_matches(c.query, #[trigger] s[pp]) by {
            if query_matches(c.query, s[pp]) {
                let j = choose|j: int| 0 <= j < x.len() && (#[trigger] x[j]).start <= pp < x[j].end;
                if j > 0 {
                    assert(x[0].end < x[j].start);
                }
            }
        }
        lemma_plan_fold_gap(c, s, l, plan_fold(c, s, l, empty, ls, lo), lo, r.start as int);
        lemma_plan_fold_concat(c, s, l, empty, ls, lo, r.start as int);
        let y1 = plan_fold(c, s, l, empty, ls, r.start as int);
        lemma_visit_inner_run(
            c,
            s,
            l,
            r.start as int,
            r.end as int,
            r.end - r.start,
            y1,
            Seq::empty(),
        );
        lemma_plan_fold_concat(c, s, l, empty, ls, r.start as int, r.end as int);
        let rest = x.drop_first();
        assert forall|i: int, j: int| 0 <= i < j < rest.len() implies (#[trigger] rest[i]).end
            < (#[trigger] rest[j]).start by {
            assert(rest[i] == x[i + 1] && rest[j] == x[j + 1]);
        }
        assert forall|i: int| 0 <= i < rest.len() implies {
            &&& (#[trigger] rest[i]).level == l
            &&& ls <= rest[i].start < rest[i].end <= le
        } by {
            assert(rest[i] == x[i + 1]);
        }
        if rest.len() > 0 {
            assert(x[0].end < x[1].start);
        }
        assert forall|pp: int|
            r.end <= pp < le && query_matches(c.query, #[trigger] s[pp]) implies exists|j: int|
            0 <= j < rest.len() && (#[trigger] rest[j]).start <= pp < rest[j].end by {
            let j = choose|j: int| 0 <= j < x.len() && (#[trigger] x[j]).start <= pp < x[j].end;
            if j == 0 {
                assert(false);
            }
            assert(rest[j - 1] == x[j]);
        }
        assert(plan_fold(c, s, l, empty, ls, lo) == y1);
        let v = visit_items(
            c,
            r.level as nat,
            s.subrange(r.start as int, r.end as int),
            (r.end - r.start) as nat,
            HttpProgress { pending: y1, found: Seq::empty() },
        );
        assert(v == HttpProgress { pending: plan_fold(c, s, l, empty, ls, r.end as int), found: Seq::<HttpRange>::empty() });
        lemma_round_inner(c, s, l, rest, r.end as int);
        assert(round(c, s, x, HttpProgress { pending: y1, found: Seq::empty() }) == round(c, s, rest, v));
    }
}

/// Fetching the runs of the leaf level, in order, reports the feature
/// ranges of all matching leaves.
proof fn lemma_round_leaf(
    c: HttpSearchConfig,
    s: Seq<NodeItem>,
    x: Seq<NodeRange>,
    lo: int,
    y: Seq<NodeRange>,
)
    requires
        level_end(c.num_items as nat, c.node_size as nat, 0) == s.len(),
        level_start(c.num_items as nat, c.node_size as nat, 0) <= lo,
        lo <= s.len(),
        runs_ok(c, 0, x),
        x.len() > 0 ==> lo <= x[0].start,
        covered(c, s, 0, x, lo),
        next_covered(c, s, x, lo),
    ensures
        round(
            c,
            s,
            x,
            HttpProgress {
                pending: y,
                found: leaf_hits(c, s, level_start(c.num_items as nat, c.node_size as nat, 0) as int, lo),
            },
        ) == (HttpProgress {
            pending: y,
            found: leaf_hits(
                c,
                s,
                level_start(c.num_items as nat, c.node_size as nat, 0) as int,
                s.len() as int,
            ),
        }),
    decreases x.len(),
{
    let n = c.num_items as nat;
    let b = c.node_size as nat;
    let ls = level_start(n, b, 0) as int;
    let le = s.len() as int;
    if x.len() == 0 {
        assert forall|pp: int| lo <= pp < le implies !query_matches(c.query, #[trigger] s[pp]) by {
            if query_matches(c.query, s[pp]) {
                let j = choose|j: int| 0 <= j < x.len() && (#[trigger] x[j]).start <= pp < x[j].end;
            }
        }
        if lo <= le {
            lemma_leaf_hits_gap(c, s, lo, le);
            lemma_leaf_hits_concat(c, s, ls, lo, le);
            assert(leaf_hits(c, s, ls, lo) + leaf_hits(c, s, lo, le) =~= leaf_hits(c, s, ls, lo));
        }
    } else {
        let r = x[0];
        assert(r.level == 0 && ls <= r.start < r.end <= le);
        assert forall|pp: int| lo <= pp < r.start implies !query_matches(c.query, #[trigger] s[pp]) by {
            if query_matches(c.query, s[pp]) {
                let j = choose|j: int| 0 <= j < x.len() && (#[trigger] x[j]).start <= pp < x[j].end;
                if j > 0 {
                    assert(x[0].end < x[j].start);
                }
            }
        }
        lemma_leaf_hits_gap(c, s, lo, r.start as int);
        lemma_leaf_hits_concat(c, s, ls, lo, r.start as int);
        assert(leaf_hits(c, s, ls, lo) + leaf_hits(c, s, lo, r.start as int) =~= leaf_hits(c, s, ls, lo));
        assert forall|pp: int|
            r.start <= pp < r.end && pp + 1 < s.len() && query_matches(c.query, #[trigger] s[pp]) implies pp
            + 1 < r.end by {
            let j = choose|j: int| 0 <= j < x.len() && (#[trigger] x[j]).start <= pp && pp + 1 < x[j].end;
            if j > 0 {
                assert(x[0].end < x[j].start);
            }
        }
        lemma_visit_leaf_run(
            c,
            s,
            r.start as int,
            r.end as int,
            r.end - r.start,
            y,
            leaf_hits(c, s, ls, r.start as int),
        );
        lemma_leaf_hits_concat(c, s, ls, r.start as int, r.end as int);
        let rest = x.drop_first();
        assert forall|i: int, j: int| 0 <= i < j < rest.len() implies (#[trigger] rest[i]).end
            < (#[trigger] rest[j]).start by {
            assert(rest[i] == x[i + 1] && rest[j] == x[j + 1]);
        }
        assert forall|i: int| 0 <= i < rest.len() implies {
            &&& (#[trigger] rest[i]).level == 0
            &&& ls <= rest[i].start < rest[i].end <= le
        } by {
            assert(rest[i] == x[i + 1]);
        }
        if rest.len() > 0 {
            assert(x[0].end < x[1].start);
        }
        assert forall|pp: int|
            r.end <= pp < le && query_matches(c.query, #[trigger] s[pp]) implies exists|j: int|
            0 <= j < rest.len() && (#[trigger] rest[j]).start <= pp < rest[j].end by {
            let j = choose|j: int| 0 <= j < x.len() && (#[trigger] x[j]).start <= pp < x[j].end;
            if j == 0 {
                assert(false);
            }
            assert(rest[j - 1] == x[j]);
        }
        assert forall|pp: int|
            r.end <= pp && pp + 1 < s.len() && query_matches(c.query, #[trigger] s[pp]) implies exists|j: int|
            0 <= j < rest.len() && (#[trigger] rest[j]).start <= pp && pp + 1 < rest[j].end by {
            let j = choose|j: int| 0 <= j < x.len() && (#[trigger] x[j]).start <= pp && pp + 1 < x[j].end;
            if j == 0 {
                assert(false);
            }
            assert(rest[j - 1] == x[j]);
        }
        lemma_round_leaf(c, s, rest, r.end as int, y);
    }
}

/// The run that a node of a level above the leaves plans: its group of
/// children, one node more on the leaf level, cut at the end of the level.
proof fn lemma_child_facts(c: HttpSearchConfig, s: Seq<NodeItem>, leaves: Seq<NodeItem>, l: int, pp: int)
    requires
        well_built(s, leaves, c.node_size as nat),
        shape_ok(leaves.len(), c.node_size as nat),
        c.num_items == leaves.len(),
        1 <= l <= top_level(leaves.len(), c.node_size as nat),
        level_start(leaves.len(), c.node_size as nat, l) <= pp < level_end(
            leaves.len(),
            c.node_size as nat,
            l,
        ),
    ensures
        ({
            let n = leaves.len();
            let b = c.node_size as nat;
            let r = child_range(c, s[pp], (l - 1) as nat);
            let p = pp - level_start(n, b, l);
            &&& r.level == l - 1
            &&& r.start == level_start(n, b, l - 1) + p * b
            &&& r.start == group_start(n, b, l - 1, p)
            &&& r.end == min_int(r.start + b + if l == 1 { 1int } else { 0int }, level_end(n, b, l - 1) as int)
            &&& level_start(n, b, l - 1) <= r.start < group_end(n, b, l - 1, p) <= r.end <= level_end(n, b, l - 1)
            &&& group_end(n, b, l - 1, p) <= r.start + b
        }),
{
    let n = leaves.len();
    let b = c.node_size as nat;
    let p = pp - level_start(n, b, l);
    lemma_built_facts(s, leaves, b);
    lemma_level_sizes(n, b);
    lemma_level_positions(n, b);
    assert(level_end(n, b, l) == level_start(n, b, l) + level_sizes(n, b)[l]);
    lemma_inner_node(s, leaves, b, l, p);
    lemma_groups_local(n, b, l - 1, p);
    let gs = group_start(n, b, l - 1, p);
    assert(s[level_start(n, b, l) + p] == s[pp]);
    assert(s[pp].offset == gs);
    assert(group_end(n, b, l - 1, p) <= gs + b) by (nonlinear_arith)
        requires
            group_end(n, b, l - 1, p) == level_start(n, b, l - 1) + min_int(
                (p + 1) * b,
                level_sizes(n, b)[l - 1] as int,
            ),
            gs == level_start(n, b, l - 1) + p * b,
    ;
}

/// What planning the children of the matching nodes of level `l` up to
/// position `hi` keeps: the runs are in order with gaps between them, the
/// run of each such node's children lies inside one of them, and the last
/// run ends where the run of the last such node ends.
proof fn lemma_planned_inv(c: HttpSearchConfig, s: Seq<NodeItem>, leaves: Seq<NodeItem>, l: int, hi: int)
    requires
        well_built(s, leaves, c.node_size as nat),
        shape_ok(leaves.len(), c.node_size as nat),
        c.num_items == leaves.len(),
        1 <= l <= top_level(leaves.len(), c.node_size as nat),
        level_start(leaves.len(), c.node_size as nat, l) <= hi <= level_end(
            leaves.len(),
            c.node_size as nat,
            l,
        ),
    ensures
        ({
            let ls = level_start(leaves.len(), c.node_size as nat, l) as int;
            let y = plan_fold(c, s, l, Seq::empty(), ls, hi);
            &&& runs_ok(c, l - 1, y)
            &&& forall|pp: int|
                ls <= pp < hi && query_matches(c.query, #[trigger] s[pp]) ==> exists|j: int|
                    0 <= j < y.len() && (#[trigger] y[j]).start <= child_range(
                        c,
                        s[pp],
                        (l - 1) as nat,
                    ).start && child_range(c, s[pp], (l - 1) as nat).end <= y[j].end
            &&& y.len() > 0 ==> exists|qq: int|
                ls <= qq < hi && query_matches(c.query, #[trigger] s[qq]) && y.last().start
                    <= child_range(c, s[qq], (l - 1) as nat).start && y.last().end == child_range(
                    c,
                    s[qq],
                    (l - 1) as nat,
                ).end
        }),
    decreases hi,
{
    let n = leaves.len();
    let b = c.node_size as nat;
    let ls = level_start(n, b, l) as int;
    let empty = Seq::<NodeRange>::empty();
    if hi == ls {
        assert(plan_fold(c, s, l, empty, ls, hi) == empty);
    } else {
        lemma_planned_inv(c, s, leaves, l, hi - 1);
        let y = plan_fold(c, s, l, empty, ls, hi - 1);
        let pp = hi - 1;
        if query_matches(c.query, s[pp]) {
            lemma_child_facts(c, s, leaves, l, pp);
            let cr = child_range(c, s[pp], (l - 1) as nat);
            let t = c.combine_request_threshold;
            let y2 = enqueue(t, y, cr);
            assert(y2 == plan_fold(c, s, l, empty, ls, hi));
            if y.len() == 0 {
                assert(y2 == seq![cr]);
                assert forall|p2: int|
                    ls <= p2 < hi && query_matches(c.query, #[trigger] s[p2]) implies exists|j: int|
                    0 <= j < y2.len() && (#[trigger] y2[j]).start <= child_range(
                        c,
                        s[p2],
                        (l - 1) as nat,
                    ).start && child_range(c, s[p2], (l - 1) as nat).end <= y2[j].end by {
                    if p2 < pp {
                        let j = choose|j: int|
                            0 <= j < y.len() && (#[trigger] y[j]).start <= child_range(
                                c,
                                s[p2],
                                (l - 1) as nat,
                            ).start && child_range(c, s[p2], (l - 1) as nat).end <= y[j].end;
                    } else {
                        assert(y2[0] == cr);
                    }
                }
                assert(y2.last() == cr);
            } else {
                let tail = y.last();
                let last = y.len() - 1;
                assert(tail == y[last]);
                let qq = choose|qq: int|
                    ls <= qq < hi - 1 && query_matches(c.query, #[trigger] s[qq]) && y.last().start
                        <= child_range(c, s[qq], (l - 1) as nat).start && y.last().end
                        == child_range(c, s[qq], (l - 1) as nat).end;
                lemma_child_facts(c, s, leaves, l, qq);
                let cq = child_range(c, s[qq], (l - 1) as nat);
                let pq = qq - ls;
                let pc = pp - ls;
                assert(pq * b < pc * b) by (nonlinear_arith)
                    requires
                        pq < pc,
                        b >= 2,
                ;
                assert(cq.start < cr.start);
                assert(cq.end <= cr.end);
                assert(tail.level == l - 1);
                if cr.start >= tail.end && (cr.start - tail.end) * 40 > t {
                    assert(y2 == y.push(cr));
                    assert(cr.start > tail.end);
                    assert forall|i: int, j: int| 0 <= i < j < y2.len() implies (#[trigger] y2[i]).end
                        < (#[trigger] y2[j]).start by {
                        if j == y.len() {
                            assert(y2[i] == y[i]);
                            if i < last {
                                assert(y[i].end < y[last].start);
                            }
                        } else {
                            assert(y2[i] == y[i] && y2[j] == y[j]);
                        }
                    }
                    assert forall|i: int| 0 <= i < y2.len() implies {
                        &&& (#[trigger] y2[i]).level == l - 1
                        &&& level_start(n, b, l - 1) <= y2[i].start < y2[i].end <= level_end(n, b, l - 1)
                    } by {
                        if i < y.len() {
                            assert(y2[i] == y[i]);
                        }
                    }
                    assert forall|p2: int|
                        ls <= p2 < hi && query_matches(c.query, #[trigger] s[p2]) implies exists|j: int|
                        0 <= j < y2.len() && (#[trigger] y2[j]).start <= child_range(
                            c,
                            s[p2],
                            (l - 1) as nat,
                        ).start && child_range(c, s[p2], (l - 1) as nat).end <= y2[j].end by {
                        if p2 < pp {
                            let j = choose|j: int|
                                0 <= j < y.len() && (#[trigger] y[j]).start <= child_range(
                                    c,
                                    s[p2],
                                    (l - 1) as nat,
                                ).start && child_range(c, s[p2], (l - 1) as nat).end <= y[j].end;
                            assert(y2[j] == y[j]);
                        } else {
                            assert(y2[y.len() as int] == cr);
                        }
                    }
                    assert(y2.last() == cr);
                } else {
                    let merged = NodeRange { level: tail.level, start: tail.start, end: cr.end };
                    assert(y2 == y.update(last, merged));
                    assert forall|i: int, j: int| 0 <= i < j < y2.len() implies (#[trigger] y2[i]).end
                        < (#[trigger] y2[j]).start by {
                        assert(y2[i] == y[i]);
                        if j < last {
                            assert(y2[j] == y[j]);
                        }
                    }
                    assert forall|i: int| 0 <= i < y2.len() implies {
                        &&& (#[trigger] y2[i]).level == l - 1
                        &&& level_start(n, b, l - 1) <= y2[i].start < y2[i].end <= level_end(n, b, l - 1)
                    } by {
                        if i < last {
                            assert(y2[i] == y[i]);
                        }
                    }
                    assert forall|p2: int|
                        ls <= p2 < hi && query_matches(c.query, #[trigger] s[p2]) implies exists|j: int|
                        0 <= j < y2.len() && (#[trigger] y2[j]).start <= child_range(
                            c,
                            s[p2],
                            (l - 1) as nat,
                        ).start && child_range(c, s[p2], (l - 1) as nat).end <= y2[j].end by {
                        if p2 < pp {
                            let j = choose|j: int|
                                0 <= j < y.len() && (#[trigger] y[j]).start <= child_range(
                                    c,
                                    s[p2],
                                    (l - 1) as nat,
                                ).start && child_range(c, s[p2], (l - 1) as nat).end <= y[j].end;
                            if j == last {
                                assert(y2[last] == merged);
                            } else {
                                assert(y2[j] == y[j]);
                            }
                        } else {
                            assert(y2[last] == merged);
                        }
                    }
                    assert(y2.last() == merged);
                }
            }
        } else {
            assert(plan_fold(c, s, l, empty, ls, hi) == y);
            if y.len() > 0 {
                let qq = choose|qq: int|
                    ls <= qq < hi - 1 && query_matches(c.query, #[trigger] s[qq]) && y.last().start
                        <= child_range(c, s[qq], (l - 1) as nat).start && y.last().end
                        == child_range(c, s[qq], (l - 1) as nat).end;
            }
        }
    }
}

/// The runs planned by a whole level above the leaves are fit to be
/// fetched as the next level: in order, and holding every matching node
/// of the level below (and, on the leaf level, the node after it).
proof fn lemma_planned_props(c: HttpSearchConfig, s: Seq<NodeItem>, leaves: Seq<NodeItem>, l: int)
    requires
        well_built(s, leaves, c.node_size as nat),
        shape_ok(leaves.len(), c.node_size as nat),
        c.num_items == leaves.len(),
        query_exact_on(c.query, leaves),
        1 <= l <= top_level(leaves.len(), c.node_size as nat),
    ensures
        ({
            let n = leaves.len();
            let b = c.node_size as nat;
            let y = plan_fold(c, s, l, Seq::empty(), level_start(n, b, l) as int, level_end(n, b, l) as int);
            &&& runs_ok(c, l - 1, y)
            &&& covered(c, s, l - 1, y, level_start(n, b, l - 1) as int)
            &&& l == 1 ==> next_covered(c, s, y, level_start(n, b, 0) as int)
        }),
{
    let n = leaves.len();
    let b = c.node_size as nat;
    let q = c.query;
    lemma_built_facts(s, leaves, b);
    lemma_level_sizes(n, b);
    lemma_level_positions(n, b);
    let ls = level_start(n, b, l) as int;
    let le = level_end(n, b, l) as int;
    assert(le == ls + level_sizes(n, b)[l]);
    lemma_planned_inv(c, s, leaves, l, le);
    let y = plan_fold(c, s, l, Seq::empty(), ls, le);
    assert forall|p2: int|
        level_start(n, b, l - 1) <= p2 < level_end(n, b, l - 1) && query_matches(q, #[trigger] s[p2])
        implies exists|j: int| 0 <= j < y.len() && (#[trigger] y[j]).start <= p2 < y[j].end by {
        lemma_parent_position(s, leaves, b, q, l - 1, p2);
        let p = (p2 - level_start(n, b, l - 1)) / (b as int);
        let pp = ls + p;
        lemma_child_facts(c, s, leaves, l, pp);
        assert(query_matches(q, s[pp]));
        let j = choose|j: int|
            0 <= j < y.len() && (#[trigger] y[j]).start <= child_range(c, s[pp], (l - 1) as nat).start
                && child_range(c, s[pp], (l - 1) as nat).end <= y[j].end;
    }
    if l == 1 {
        assert forall|p2: int|
            level_start(n, b, 0) <= p2 && p2 + 1 < s.len() && query_matches(q, #[trigger] s[p2])
            implies exists|j: int| 0 <= j < y.len() && (#[trigger] y[j]).start <= p2 && p2 + 1 < y[j].end by {
            assert(level_end(n, b, 0) == s.len());
            lemma_parent_position(s, leaves, b, q, 0, p2);
            let p = (p2 - level_start(n, b, 0)) / (b as int);
            let pp = ls + p;
            lemma_child_facts(c, s, leaves, l, pp);
            assert(query_matches(q, s[pp]));
            let j = choose|j: int|
                0 <= j < y.len() && (#[trigger] y[j]).start <= child_range(c, s[pp], (l - 1) as nat).start
                    && child_range(c, s[pp], (l - 1) as nat).end <= y[j].end;
        }
    }
}

proof fn lemma_enqueue_behind(t: usize, x: Seq<NodeRange>, y: Seq<NodeRange>, r: NodeRange, l: usize)
    requires
        forall|i: int| 0 <= i < x.len() ==> (#[trigger] x[i]).level == l,
        r.level != l,
    ensures
        enqueue(t, x + y, r) == x + enqueue(t, y, r),
{
    if y.len() == 0 {
        assert(x + y =~= x);
        if x.len() > 0 {
            assert(x.last() == x[x.len() - 1]);
        }
        assert(x.push(r) =~= x + seq![r]);
        assert(enqueue(t, y, r) == seq![r]);
    } else {
        assert((x + y).last() == y.last());
        let last = y.len() - 1;
        let v = NodeRange { level: y.last().level, start: y.last().start, end: r.end };
        assert((x + y).update(x.len() + last, v) =~= x + y.update(last, v));
        assert((x + y).push(r) =~= x + y.push(r));
    }
}

/// Looking at nodes while runs of their own level wait ahead of the
/// planned runs leaves those runs in front.
proof fn lemma_visit_behind(
    c: HttpSearchConfig,
    l: nat,
    items: Seq<NodeItem>,
    k: nat,
    x: Seq<NodeRange>,
    y: Seq<NodeRange>,
    f: Seq<HttpRange>,
)
    requires
        l <= usize::MAX,
        forall|i: int| 0 <= i < x.len() ==> (#[trigger] x[i]).level == l,
    ensures
        ({
            let v = visit_items(c, l, items, k, HttpProgress { pending: y, found: f });
            visit_items(c, l, items, k, HttpProgress { pending: x + y, found: f })
                == HttpProgress { pending: x + v.pending, found: v.found }
        }),
    decreases k,
{
    if k > 0 {
        lemma_visit_behind(c, l, items, (k - 1) as nat, x, y, f);
        let v = visit_items(c, l, items, (k - 1) as nat, HttpProgress { pending: y, found: f });
        if query_matches(c.query, items[k - 1]) && l != 0 {
            lemma_enqueue_behind(
                c.combine_request_threshold,
                x,
                v.pending,
                child_range(c, items[k - 1], (l - 1) as nat),
                l as usize,
            );
        }
    }
}

proof fn lemma_fetch_steps_compose(c: HttpSearchConfig, s: Seq<NodeItem>, p: HttpProgress, a: nat, b: nat)
    ensures
        fetch_steps(c, s, p, a + b) == fetch_steps(c, s, fetch_steps(c, s, p, a), b),
    decreases a,
{
    if a > 0 {
        lemma_fetch_steps_compose(c, s, fetch_step(c, s, p), (a - 1) as nat, b);
        assert((a + b - 1) as nat == (a - 1) as nat + b);
    }
}

/// Fetching the waiting runs of one level, one request each, is a round
/// over them.
proof fn lemma_fetch_round(
    c: HttpSearchConfig,
    s: Seq<NodeItem>,
    x: Seq<NodeRange>,
    y: Seq<NodeRange>,
    f: Seq<HttpRange>,
    l: usize,
)
    requires
        forall|i: int| 0 <= i < x.len() ==> (#[trigger] x[i]).level == l && x[i].start < x[i].end,
    ensures
        fetch_steps(c, s, HttpProgress { pending: x + y, found: f }, x.len()) == round(
            c,
            s,
            x,
            HttpProgress { pending: y, found: f },
        ),
    decreases x.len(),
{
    if x.len() > 0 {
        let r = x[0];
        let rest = x.drop_first();
        assert(drop_empty(x + y) == x + y);
        assert((x + y)[0] == r);
        assert((x + y).drop_first() =~= rest + y);
        assert forall|i: int| 0 <= i < rest.len() implies (#[trigger] rest[i]).level == l && rest[i].start
            < rest[i].end by {
            assert(rest[i] == x[i + 1]);
        }
        let items = s.subrange(r.start as int, r.end as int);
        let k = (r.end - r.start) as nat;
        lemma_visit_behind(c, l as nat, items, k, rest, y, f);
        let v = visit_items(c, l as nat, items, k, HttpProgress { pending: y, found: f });
        lemma_fetch_round(c, s, rest, v.pending, v.found, l);
        assert(fetch_step(c, s, HttpProgress { pending: x + y, found: f }) == HttpProgress {
            pending: rest + v.pending,
            found: v.found,
        });
    }
}

/// From the runs of level `l` on, the search ends with the feature ranges
/// of all matching leaves.
proof fn lemma_levels(c: HttpSearchConfig, s: Seq<NodeItem>, leaves: Seq<NodeItem>, l: int, x: Seq<NodeRange>)
    requires
        well_built(s, leaves, c.node_size as nat),
        shape_ok(leaves.len(), c.node_size as nat),
        c.num_items == leaves.len(),
        query_exact_on(c.query, leaves),
        0 <= l <= top_level(leaves.len(), c.node_size as nat),
        runs_ok(c, l, x),
        covered(c, s, l, x, level_start(leaves.len(), c.node_size as nat, l) as int),
        l == 0 ==> next_covered(c, s, x, level_start(leaves.len(), c.node_size as nat, 0) as int),
    ensures
        exists|k: nat|
            fetch_steps(c, s, HttpProgress { pending: x, found: Seq::empty() }, k) == (HttpProgress {
                pending: Seq::empty(),
                found: leaf_hits(
                    c,
                    s,
                    level_start(leaves.len(), c.node_size as nat, 0) as int,
                    s.len() as int,
                ),
            }),
    decreases l,
{
    let n = leaves.len();
    let b = c.node_size as nat;
    let empty = Seq::<NodeRange>::empty();
    lemma_built_facts(s, leaves, b);
    lemma_level_sizes(n, b);
    lemma_level_positions(n, b);
    let ls = level_start(n, b, l) as int;
    let le = level_end(n, b, l) as int;
    assert(le <= s.len());
    assert(x + empty =~= x);
    lemma_fetch_round(c, s, x, empty, Seq::empty(), l as usize);
    let k1 = x.len();
    if l == 0 {
        assert(leaf_hits(c, s, ls, ls) =~= Seq::<HttpRange>::empty());
        lemma_round_leaf(c, s, x, ls, empty);
        assert(fetch_steps(c, s, HttpProgress { pending: x, found: Seq::empty() }, k1) == (HttpProgress {
            pending: Seq::empty(),
            found: leaf_hits(c, s, ls, s.len() as int),
        }));
    } else {
        assert(plan_fold(c, s, l, empty, ls, ls) == empty);
        lemma_round_inner(c, s, l, x, ls);
        let y = plan_fold(c, s, l, empty, ls, le);
        lemma_planned_props(c, s, leaves, l);
        lemma_levels(c, s, leaves, l - 1, y);
        let k2 = choose|k2: nat|
            fetch_steps(c, s, HttpProgress { pending: y, found: Seq::empty() }, k2) == (HttpProgress {
                pending: Seq::empty(),
                found: leaf_hits(c, s, level_start(n, b, 0) as int, s.len() as int),
            });
        lemma_fetch_steps_compose(c, s, HttpProgress { pending: x, found: Seq::empty() }, k1, k2);
    }
}

proof fn lemma_leaf_hits_are_feature_ranges(c: HttpSearchConfig, s: Seq<NodeItem>, leaves: Seq<NodeItem>, i: int)
    requires
        well_built(s, leaves, c.node_size as nat),
        shape_ok(leaves.len(), c.node_size as nat),
        0 <= i <= leaves.len(),
    ensures
        leaf_hits(
            c,
            s,
            leaf_start(leaves.len(), c.node_size as nat) as int,
            leaf_start(leaves.len(), c.node_size as nat) + i,
        ) == feature_ranges(c.feature_begin, leaves, c.query, i),
    decreases i,
{
    let n = leaves.len();
    let b = c.node_size as nat;
    lemma_built_facts(s, leaves, b);
    let ls = leaf_start(n, b) as int;
    if i > 0 {
        lemma_leaf_hits_are_feature_ranges(c, s, leaves, i - 1);
        assert(s[ls + (i - 1)] == leaves[i - 1]);
        if i < n {
            assert(s[ls + i] == leaves[i]);
        }
        assert(leaf_range(c.feature_begin, s, ls + i - 1) == if i < n {
            HttpRange::Range(
                core::ops::Range {
                    start: wrap_add(c.feature_begin, leaves[i - 1].offset as usize),
                    end: wrap_add(c.feature_begin, leaves[i].offset as usize),
                },
            )
        } else {
            HttpRange::RangeFrom(wrap_add(c.feature_begin, leaves[i - 1].offset as usize))
        });
    }
}

/// A search over HTTP of the index of a tree built over `leaves`, each
/// request answered with the nodes asked for, ends after finitely many
/// requests with nothing left to fetch, having found the byte ranges of
/// exactly the features whose leaves match the query, in leaf order: each
/// range reaches up to the feature of the next leaf, and the last leaf's
/// range is open.  This holds whatever the threshold for merging requests.
/// For a box query it holds when no leaf coordinate is a NaN.
pub proof fn lemma_http_search_built_tree(c: HttpSearchConfig, nodes: Seq<NodeItem>, leaves: Seq<NodeItem>)
    requires
        well_built(nodes, leaves, c.node_size as nat),
        shape_ok(leaves.len(), c.node_size as nat),
        c.num_items == leaves.len(),
        query_exact_on(c.query, leaves),
    ensures
        exists|k: nat|
            fetch_steps(c, nodes, HttpProgress { pending: first_runs(c), found: Seq::empty() }, k) == (
            HttpProgress {
                pending: Seq::empty(),
                found: feature_ranges(c.feature_begin, leaves, c.query, leaves.len() as int),
            }),
{
    let n = leaves.len();
    let b = c.node_size as nat;
    lemma_built_facts(nodes, leaves, b);
    lemma_level_sizes(n, b);
    lemma_level_positions(n, b);
    let top = top_level(n, b) as int;
    let x = first_runs(c);
    assert(x == seq![NodeRange { level: top as usize, start: 0, end: 1 }]);
    assert(level_end(n, b, top) == 1);
    assert forall|pp: int|
        0 <= pp < level_end(n, b, top) && query_matches(c.query, #[trigger] nodes[pp]) implies exists|j: int|
        0 <= j < x.len() && (#[trigger] x[j]).start <= pp < x[j].end by {
        assert(x[0].start <= pp < x[0].end);
    }
    lemma_levels(c, nodes, leaves, top, x);
    lemma_leaf_hits_are_feature_ranges(c, nodes, leaves, n as int);
}

/// The bytes of a file that holds the written index from `index_begin`
/// on, taken at the range a request asks for, decode to the nodes of the
/// requested run.
pub proof fn lemma_file_answers(nodes: Seq<NodeItem>, file: Seq<u8>, index_begin: int, start: int, end: int)
    requires
        0 <= index_begin,
        index_begin + nodes.len() * 40 <= file.len(),
        file.subrange(index_begin, index_begin + nodes.len() * 40) == nodes_bytes(nodes),
        0 <= start <= end <= nodes.len(),
    ensures
        ({
            let chunk = file.subrange(index_begin + start * 40, index_begin + end * 40);
            &&& chunk.len() == (end - start) * 40
            &&& nodes_from_bytes(chunk, chunk.len() / 40) == nodes.subrange(start, end)
        }),
{
    let lo = index_begin + start * 40;
    let hi = index_begin + end * 40;
    assert(start * 40 <= end * 40 <= nodes.len() * 40) by (nonlinear_arith)
        requires
            0 <= start <= end <= nodes.len(),
    ;
    let chunk = file.subrange(lo, hi);
    let whole = file.subrange(index_begin, index_begin + nodes.len() * 40);
    lemma_nodes_bytes_roundtrip(nodes);
    assert(chunk.len() / 40 == end - start) by (nonlinear_arith)
        requires
            chunk.len() == (end - start) * 40,
    ;
    assert forall|i: int| 0 <= i < end - start implies #[trigger] nodes_from_bytes(
        chunk,
        chunk.len() / 40,
    )[i] == nodes.subrange(start, end)[i] by {
        assert(i * 40 + 40 <= (end - start) * 40) by (nonlinear_arith)
            requires
                0 <= i < end - start,
        ;
        assert((start + i) * 40 == start * 40 + i * 40) by (nonlinear_arith);
        assert((start + i) * 40 + 40 <= nodes.len() * 40) by (nonlinear_arith)
            requires
                start + i < nodes.len(),
        ;
        lemma_node_from_bytes_slice(file, lo, hi, i * 40);
        lemma_node_from_bytes_slice(
            file,
            index_begin,
            index_begin + nodes.len() * 40,
            (start + i) * 40,
        );
        assert(nodes_from_bytes(nodes_bytes(nodes), nodes.len())[start + i] == nodes[start + i]);
    }
    assert(nodes_from_bytes(chunk, chunk.len() / 40) =~= nodes.subrange(start, end));
}

/// The merge threshold decides only which byte ranges are requested: two
/// searches over HTTP of the index of a tree built over `leaves`, set up
/// alike but for the threshold, each end with nothing left to fetch and
/// with the same feature ranges, in the same order.
pub proof fn lemma_http_threshold_irrelevant(
    c1: HttpSearchConfig,
    c2: HttpSearchConfig,
    nodes: Seq<NodeItem>,
    leaves: Seq<NodeItem>,
)
    requires
        well_built(nodes, leaves, c1.node_size as nat),
        shape_ok(leaves.len(), c1.node_size as nat),
        c1.num_items == leaves.len(),
        query_exact_on(c1.query, leaves),
        c2.num_items == c1.num_items,
        c2.node_size == c1.node_size,
        c2.query == c1.query,
        c2.feature_begin == c1.feature_begin,
    ensures
        exists|k1: nat, k2: nat|
            #![trigger fetch_steps(c1, nodes, HttpProgress { pending: first_runs(c1), found: Seq::empty() }, k1), fetch_steps(c2, nodes, HttpProgress { pending: first_runs(c2), found: Seq::empty() }, k2)]
            fetch_steps(c1, nodes, HttpProgress { pending: first_runs(c1), found: Seq::empty() }, k1)
                == fetch_steps(c2, nodes, HttpProgress { pending: first_runs(c2), found: Seq::empty() }, k2)
                && fetch_steps(c1, nodes, HttpProgress { pending: first_runs(c1), found: Seq::empty() }, k1).pending.len() == 0,
{
    lemma_http_search_built_tree(c1, nodes, leaves);
    lemma_http_search_built_tree(c2, nodes, leaves);
    let k1 = choose|k: nat|
        fetch_steps(c1, nodes, HttpProgress { pending: first_runs(c1), found: Seq::empty() }, k) == (
        HttpProgress {
            pending: Seq::empty(),
            found: feature_ranges(c1.feature_begin, leaves, c1.query, leaves.len() as int),
        });
    let k2 = choose|k: nat|
        fetch_steps(c2, nodes, HttpProgress { pending: first_runs(c2), found: Seq::empty() }, k) == (
        HttpProgress {
            pending: Seq::empty(),
            found: feature_ranges(c2.feature_begin, leaves, c2.query, leaves.len() as int),
        });
    assert(fetch_steps(c1, nodes, HttpProgress { pending: first_runs(c1), found: Seq::empty() }, k1)
        == fetch_steps(c2, nodes, HttpProgress { pending: first_runs(c2), found: Seq::empty() }, k2));
}

} // verus!
