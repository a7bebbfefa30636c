//! The nearest-neighbour search of a built tree, handed distances that are
//! consistent with the tree, ends with a leaf whose centre is closest.
//!
//! The search keeps [`nearest_sound`] from its start
//! ([`lemma_sound_start`]), through each run it takes off
//! ([`lemma_sound_pop`]) and each run it is handed with the tree's nodes
//! and their distances ([`lemma_sound_visit`]); when it stops,
//! [`lemma_nearest_found`] gives the closest leaf.

use crate::ieee754::{is_nan, order_key, spec_le, spec_lt};
use crate::levels::{
    ceil_div, lemma_groups, lemma_level_positions, lemma_level_sizes, level_end, level_sizes,
    level_start, shape_ok, total_nodes,
};
use crate::nearest::{
    beyond_best, child_entry, closest_first, holds_leaves, nearest_visit, nearest_visits, Layout,
    Nearest, NearestConfig, NearestEntry, NearestProgress,
};
use crate::node::NodeItem;
use crate::search::top_level;
use crate::search_law::{lemma_built_facts, lemma_groups_local, lemma_inner_node};
use crate::tree::{group_end, group_start, leaf_start, min_int, well_built};
use vstd::prelude::*;

verus! {

/// The position of the node of level `l` that the leaf at position
/// `leaf` lies below (the leaf itself on the leaf level).
pub open spec fn ancestor(n: nat, b: nat, l: nat, leaf: int) -> int
    decreases l,
{
    if l == 0 {
        leaf
    } else {
        level_start(n, b, l as int) + (ancestor(n, b, (l - 1) as nat, leaf) - level_start(
            n,
            b,
            l - 1,
        )) / (b as int)
    }
}

/// A child is never closer than its parent.
pub open spec fn child_not_closer(d: Seq<(u64, u64)>, parent: int, child: int) -> bool {
    order_key(d[child].0) >= order_key(d[parent].0)
}

/// The distances `d[p]` of the nodes of a tree with `n` leaves and
/// branching factor `b` to the query point, least distance and centre
/// distance, fit the tree: none is a NaN, least distances are not
/// negative, a child is never closer than its parent, and the centre of
/// a leaf is never closer than its box.
pub open spec fn dists_ok(n: nat, b: nat, d: Seq<(u64, u64)>) -> bool {
    &&& d.len() == total_nodes(n, b)
    &&& forall|p: int|
        0 <= p < d.len() ==> !is_nan((#[trigger] d[p]).0) && !is_nan(d[p].1) && order_key(d[p].0) >= 0
    &&& forall|l: int, p: int, ch: int|
        1 <= l < level_sizes(n, b).len() && 0 <= p < level_sizes(n, b)[l] && group_start(n, b, l - 1, p)
            <= ch < group_end(n, b, l - 1, p) ==> #[trigger] child_not_closer(
            d,
            level_start(n, b, l) + p,
            ch,
        )
    &&& forall|p: int|
        leaf_start(n, b) <= p < d.len() ==> order_key((#[trigger] d[p]).1) >= order_key(d[p].0)
}

/// A run lies inside its level, is not empty, ends `node_size` nodes
/// after its start (one more on the leaf level over HTTP) or at the end of
/// its level, and its distance is not a NaN.
pub open spec fn entry_ok(c: NearestConfig, e: NearestEntry) -> bool {
    let n = c.num_items as nat;
    let b = c.node_size as nat;
    let extra: int = if c.layout == Layout::Http && e.level == 0 {
        1
    } else {
        0
    };
    &&& e.level <= top_level(n, b)
    &&& level_start(n, b, e.level as int) <= e.start < e.end <= level_end(n, b, e.level as int)
    &&& e.end == min_int(e.start + b + extra, level_end(n, b, e.level as int) as int)
    &&& !is_nan(e.distance)
}

/// The leaf lies below a node among the first `node_size` of the run (the
/// group of children that the run was planned for), and that node is not
/// closer than the run.
pub open spec fn covered_by(c: NearestConfig, d: Seq<(u64, u64)>, e: NearestEntry, leaf: int) -> bool {
    let a = ancestor(c.num_items as nat, c.node_size as nat, e.level as nat, leaf);
    &&& e.start <= a < e.end
    &&& a < e.start + c.node_size
    &&& order_key(d[a].0) >= order_key(e.distance)
}

/// The leaf cannot beat the closest leaf found.
pub open spec fn settled(best: Option<Nearest>, d: Seq<(u64, u64)>, leaf: int) -> bool {
    best matches Some(x) && order_key(d[leaf].1) >= order_key(x.distance)
}

/// The closest leaf found is a leaf of the tree `s`, at its centre
/// distance, with its offset; over HTTP the offset after it is that of the
/// next leaf, and there is none only after the last leaf.
pub open spec fn best_ok(c: NearestConfig, s: Seq<NodeItem>, d: Seq<(u64, u64)>, best: Option<Nearest>) -> bool {
    let n = c.num_items as nat;
    let b = c.node_size as nat;
    best matches Some(x) ==> {
        &&& leaf_start(n, b) <= x.pos < total_nodes(n, b)
        &&& x.distance == d[x.pos as int].1
        &&& x.offset == s[x.pos as int].offset
        &&& c.layout == Layout::Http ==> x.next_offset == if x.pos + 1 < total_nodes(n, b) {
            Some(s[x.pos + 1].offset)
        } else {
            None
        }
    }
}

/// What the search keeps: its runs are fit, the closest leaf found is as
/// [`best_ok`] says, and every leaf either cannot beat it or lies below a
/// waiting run (or the run being visited).
pub open spec fn nearest_sound(
    c: NearestConfig,
    s: Seq<NodeItem>,
    d: Seq<(u64, u64)>,
    p: NearestProgress,
    aw: Option<NearestEntry>,
) -> bool {
    let n = c.num_items as nat;
    let b = c.node_size as nat;
    &&& forall|j: int| 0 <= j < p.pending.len() ==> entry_ok(c, #[trigger] p.pending[j])
    &&& aw matches Some(e) ==> entry_ok(c, e)
    &&& best_ok(c, s, d, p.best)
    &&& forall|leaf: int|
        leaf_start(n, b) <= leaf < total_nodes(n, b) ==> settled(p.best, d, leaf) || (exists|j: int|
            0 <= j < p.pending.len() && #[trigger] covered_by(c, d, p.pending[j], leaf)) || (
        aw matches Some(e) && covered_by(c, d, e, leaf))
}

/// The `p`-th node of level `c + 1` is the parent of the node at `pc` on
/// level `c`.
proof fn lemma_parent_index(n: nat, b: nat, c: int, pc: int)
    requires
        shape_ok(n, b),
        0 <= c < level_sizes(n, b).len() - 1,
        level_start(n, b, c) <= pc < level_end(n, b, c),
    ensures
        ({
            let p = (pc - level_start(n, b, c)) / (b as int);
            &&& 0 <= p < level_sizes(n, b)[c + 1]
            &&& group_start(n, b, c, p) <= pc < group_end(n, b, c, p)
        }),
{
    lemma_level_sizes(n, b);
    lemma_level_positions(n, b);
    let r = pc - level_start(n, b, c);
    let size = level_sizes(n, b)[c];
    let up = level_sizes(n, b)[c + 1];
    assert(up == ceil_div(size, b));
    lemma_groups(size, b);
    let p = r / (b as int);
    assert(0 <= p && p * b <= r && r < (p + 1) * b) by (nonlinear_arith)
        requires
            b >= 2,
            r >= 0,
            p == r / (b as int),
    ;
    assert(p < up) by (nonlinear_arith)
        requires
            p * b <= r,
            r < size,
            size <= up * b,
            b >= 2,
    ;
}

/// The ancestor of a leaf on each level lies on that level, and the
/// ancestor on the level below lies in its group of children.
proof fn lemma_ancestor(n: nat, b: nat, l: nat, leaf: int)
    requires
        shape_ok(n, b),
        l < level_sizes(n, b).len(),
        leaf_start(n, b) <= leaf < level_end(n, b, 0),
    ensures
        level_start(n, b, l as int) <= ancestor(n, b, l, leaf) < level_end(n, b, l as int),
        l > 0 ==> ({
            let p = ancestor(n, b, l, leaf) - level_start(n, b, l as int);
            group_start(n, b, l - 1, p) <= ancestor(n, b, (l - 1) as nat, leaf) < group_end(n, b, l - 1, p)
        }),
    decreases l,
{
    lemma_level_sizes(n, b);
    lemma_level_positions(n, b);
    if l > 0 {
        lemma_ancestor(n, b, (l - 1) as nat, leaf);
        let a = ancestor(n, b, (l - 1) as nat, leaf);
        lemma_parent_index(n, b, l - 1, a);
        assert(level_end(n, b, l as int) == level_start(n, b, l as int) + level_sizes(n, b)[l as int]);
    }
}

/// A leaf is not closer, by its centre, than any of its ancestors.
proof fn lemma_ancestor_distance(n: nat, b: nat, d: Seq<(u64, u64)>, l: nat, leaf: int)
    requires
        shape_ok(n, b),
        dists_ok(n, b, d),
        l < level_sizes(n, b).len(),
        leaf_start(n, b) <= leaf < level_end(n, b, 0),
    ensures
        order_key(d[leaf].1) >= order_key(d[ancestor(n, b, l, leaf)].0),
    decreases l,
{
    lemma_level_sizes(n, b);
    lemma_level_positions(n, b);
    if l == 0 {
        assert(d[leaf] == d[ancestor(n, b, l, leaf)]);
    } else {
        lemma_ancestor(n, b, l, leaf);
        lemma_ancestor_distance(n, b, d, (l - 1) as nat, leaf);
        let a = ancestor(n, b, l, leaf);
        let p = a - level_start(n, b, l as int);
        assert(level_end(n, b, l as int) == level_start(n, b, l as int) + level_sizes(n, b)[l as int]);
        assert(child_not_closer(d, level_start(n, b, l as int) + p, ancestor(n, b, (l - 1) as nat, leaf)));
    }
}

/// The root alone, at distance 0, is a sound start.
pub proof fn lemma_sound_start(c: NearestConfig, s: Seq<NodeItem>, d: Seq<(u64, u64)>)
    requires
        shape_ok(c.num_items as nat, c.node_size as nat),
        dists_ok(c.num_items as nat, c.node_size as nat, d),
    ensures
        nearest_sound(
            c,
            s,
            d,
            NearestProgress {
                pending: seq![
                    NearestEntry {
                        distance: 0,
                        start: 0,
                        end: 1,
                        level: top_level(c.num_items as nat, c.node_size as nat) as usize,
                    },
                ],
                best: None,
            },
            None,
        ),
{
    let n = c.num_items as nat;
    let b = c.node_size as nat;
    lemma_level_sizes(n, b);
    lemma_level_positions(n, b);
    crate::levels::lemma_levels_fewer_than_nodes(n, b);
    let top = top_level(n, b);
    let root = NearestEntry { distance: 0, start: 0, end: 1, level: top as usize };
    let p = NearestProgress { pending: seq![root], best: None };
    assert(level_end(n, b, top as int) == 1);
    assert(!is_nan(0u64));
    assert forall|leaf: int| leaf_start(n, b) <= leaf < total_nodes(n, b) implies settled(p.best, d, leaf)
        || (exists|j: int| 0 <= j < p.pending.len() && #[trigger] covered_by(c, d, p.pending[j], leaf))
        || (None::<NearestEntry> matches Some(e) && covered_by(c, d, e, leaf)) by {
        lemma_ancestor(n, b, top, leaf);
        let a = ancestor(n, b, top, leaf);
        assert(0 <= a < d.len());
        assert(order_key(d[a].0) >= 0);
        assert(p.pending[0] == root);
        assert(covered_by(c, d, p.pending[0], leaf));
    }
}

/// Taking off a run that no waiting run is closer than keeps the search
/// sound, the run now being visited.
pub proof fn lemma_sound_pop(c: NearestConfig, s: Seq<NodeItem>, d: Seq<(u64, u64)>, p: NearestProgress, i: int)
    requires
        nearest_sound(c, s, d, p, None),
        closest_first(p.pending, i),
    ensures
        nearest_sound(
            c,
            s,
            d,
            NearestProgress { pending: p.pending.remove(i), best: p.best },
            Some(p.pending[i]),
        ),
{
    let n = c.num_items as nat;
    let b = c.node_size as nat;
    let q = NearestProgress { pending: p.pending.remove(i), best: p.best };
    let e = p.pending[i];
    assert forall|j: int| 0 <= j < q.pending.len() implies entry_ok(c, #[trigger] q.pending[j]) by {
        if j < i {
            assert(q.pending[j] == p.pending[j]);
        } else {
            assert(q.pending[j] == p.pending[j + 1]);
        }
    }
    assert forall|leaf: int| leaf_start(n, b) <= leaf < total_nodes(n, b) implies settled(q.best, d, leaf)
        || (exists|j: int| 0 <= j < q.pending.len() && #[trigger] covered_by(c, d, q.pending[j], leaf))
        || (Some(e) matches Some(e2) && covered_by(c, d, e2, leaf)) by {
        if !settled(q.best, d, leaf) {
            let j = choose|j: int| 0 <= j < p.pending.len() && #[trigger] covered_by(c, d, p.pending[j], leaf);
            if j < i {
                assert(q.pending[j] == p.pending[j]);
                assert(covered_by(c, d, q.pending[j], leaf));
            } else if j > i {
                assert(q.pending[j - 1] == p.pending[j]);
                assert(covered_by(c, d, q.pending[j - 1], leaf));
            }
        }
    }
}

/// When the search stops, with no run left or with the closest waiting run
/// farther than the closest leaf found, that leaf is one whose centre is
/// closest to the point: no leaf's centre distance is less.  Its offset is
/// that of the leaf at its position; over HTTP the offset after it is that
/// of the next leaf, so its byte range is closed up to the next feature,
/// and open only for the last leaf.
pub proof fn lemma_nearest_found(c: NearestConfig, s: Seq<NodeItem>, d: Seq<(u64, u64)>, p: NearestProgress)
    requires
        shape_ok(c.num_items as nat, c.node_size as nat),
        dists_ok(c.num_items as nat, c.node_size as nat, d),
        nearest_sound(c, s, d, p, None),
        p.pending.len() == 0 || exists|i: int| closest_first(p.pending, i) && beyond_best(p.best, p.pending[i]),
    ensures
        p.best matches Some(x) && {
            &&& leaf_start(c.num_items as nat, c.node_size as nat) <= x.pos < total_nodes(
                c.num_items as nat,
                c.node_size as nat,
            )
            &&& x.distance == d[x.pos as int].1
            &&& x.offset == s[x.pos as int].offset
            &&& c.layout == Layout::Http ==> x.next_offset == if x.pos + 1 < total_nodes(
                c.num_items as nat,
                c.node_size as nat,
            ) {
                Some(s[x.pos + 1].offset)
            } else {
                None
            }
            &&& forall|leaf: int|
                leaf_start(c.num_items as nat, c.node_size as nat) <= leaf < total_nodes(
                    c.num_items as nat,
                    c.node_size as nat,
                ) ==> order_key((#[trigger] d[leaf]).1) >= order_key(x.distance)
        },
{
    let n = c.num_items as nat;
    let b = c.node_size as nat;
    lemma_level_sizes(n, b);
    lemma_level_positions(n, b);
    assert forall|leaf: int| leaf_start(n, b) <= leaf < total_nodes(n, b) implies settled(p.best, d, leaf) by {
        if !settled(p.best, d, leaf) {
            let j = choose|j: int| 0 <= j < p.pending.len() && #[trigger] covered_by(c, d, p.pending[j], leaf);
            let i = choose|i: int| closest_first(p.pending, i) && beyond_best(p.best, p.pending[i]);
            let ej = p.pending[j];
            let ei = p.pending[i];
            assert(entry_ok(c, ej) && entry_ok(c, ei));
            assert(!spec_lt(p.pending[j].distance, ei.distance));
            lemma_ancestor_distance(n, b, d, ej.level as nat, leaf);
        }
    }
    let leaf0 = leaf_start(n, b) as int;
    assert(leaf0 < total_nodes(n, b));
    assert(settled(p.best, d, leaf0));
    let x = p.best->Some_0;
    assert forall|leaf: int| leaf_start(n, b) <= leaf < total_nodes(n, b) implies order_key(
        (#[trigger] d[leaf]).1,
    ) >= order_key(x.distance) by {
        assert(settled(p.best, d, leaf));
    }
}

/// A fit run holds leaves exactly when it lies on the leaf level.
proof fn lemma_holds_leaves(c: NearestConfig, e: NearestEntry)
    requires
        shape_ok(c.num_items as nat, c.node_size as nat),
        entry_ok(c, e),
    ensures
        holds_leaves(c, e) == (e.level == 0),
{
    let n = c.num_items as nat;
    let b = c.node_size as nat;
    lemma_level_sizes(n, b);
    lemma_level_positions(n, b);
    if e.level > 0 {
        assert(level_end(n, b, e.level as int) <= level_end(n, b, 1));
        assert(level_end(n, b, 1) == level_start(n, b, 0));
    }
}

/// What looking at the first `k` nodes of the visited run keeps: the
/// runs stay fit, the closest leaf is a leaf at its centre distance, and
/// each leaf cannot beat it, lies below a waiting run, or lies below a
/// node of the visited run not yet looked at.
#[verifier::rlimit(80)]
proof fn lemma_visit_inv(
    c: NearestConfig,
    s: Seq<NodeItem>,
    leaves: Seq<NodeItem>,
    d: Seq<(u64, u64)>,
    p: NearestProgress,
    e: NearestEntry,
    k: int,
)
    requires
        well_built(s, leaves, c.node_size as nat),
        shape_ok(leaves.len(), c.node_size as nat),
        c.num_items == leaves.len(),
        dists_ok(c.num_items as nat, c.node_size as nat, d),
        nearest_sound(c, s, d, p, Some(e)),
        0 <= k <= e.end - e.start,
    ensures
        nearest_visits(
            c,
            e,
            s.subrange(e.start as int, e.end as int),
            d.subrange(e.start as int, e.end as int),
            k as nat,
            p,
        ) matches Some(q) && {
            &&& forall|j: int| 0 <= j < q.pending.len() ==> entry_ok(c, #[trigger] q.pending[j])
            &&& best_ok(c, s, d, q.best)
            &&& forall|leaf: int|
                leaf_start(c.num_items as nat, c.node_size as nat) <= leaf < total_nodes(
                    c.num_items as nat,
                    c.node_size as nat,
                ) ==> settled(q.best, d, leaf) || (exists|j: int|
                    0 <= j < q.pending.len() && #[trigger] covered_by(c, d, q.pending[j], leaf)) || (
                covered_by(c, d, e, leaf) && ancestor(
                    c.num_items as nat,
                    c.node_size as nat,
                    e.level as nat,
                    leaf,
                ) >= e.start + k)
        },
    decreases k,
{
    let n = c.num_items as nat;
    let b = c.node_size as nat;
    let items = s.subrange(e.start as int, e.end as int);
    let ds = d.subrange(e.start as int, e.end as int);
    lemma_built_facts(s, leaves, b);
    lemma_level_sizes(n, b);
    lemma_level_positions(n, b);
    assert(level_end(n, b, 0) == total_nodes(n, b));
    assert(entry_ok(c, e));
    assert(level_end(n, b, e.level as int) <= total_nodes(n, b));
    if k == 0 {
        assert(nearest_visits(c, e, items, ds, 0, p) == Some(p));
    } else {
        lemma_visit_inv(c, s, leaves, d, p, e, k - 1);
        let q = nearest_visits(c, e, items, ds, (k - 1) as nat, p)->Some_0;
        let a = e.start + k - 1;
        assert(items[k - 1] == s[a]);
        assert(ds[k - 1] == d[a]);
        let dd = d[a].0;
        assert(!is_nan(dd) && !is_nan(d[a].1));
        let l = e.level as nat;
        lemma_holds_leaves(c, e);
        let r = nearest_visit(c, e, items, ds, k - 1, q);
        assert(nearest_visits(c, e, items, ds, k as nat, p) == r);
        if k - 1 >= b {
            assert(r == Some(q));
        } else if q.best matches Some(x) && spec_le(x.distance, dd) {
            assert(r == Some(q));
            assert forall|leaf: int| leaf_start(n, b) <= leaf < total_nodes(n, b) implies settled(
                q.best,
                d,
                leaf,
            ) || (exists|j: int| 0 <= j < q.pending.len() && #[trigger] covered_by(c, d, q.pending[j], leaf))
                || (covered_by(c, d, e, leaf) && ancestor(n, b, l, leaf) >= e.start + k) by {
                if ancestor(n, b, l, leaf) == a && covered_by(c, d, e, leaf) {
                    lemma_ancestor_distance(n, b, d, l, leaf);
                }
            }
        } else if holds_leaves(c, e) {
            assert(l == 0);
            let cand = Nearest {
                distance: ds[k - 1].1,
                pos: (e.start + (k - 1)) as usize,
                offset: items[k - 1].offset,
                next_offset: if k < items.len() {
                    Some(items[k].offset)
                } else {
                    None
                },
            };
            if q.best is None || spec_lt(ds[k - 1].1, q.best->Some_0.distance) {
                let q2 = NearestProgress { pending: q.pending, best: Some(cand) };
                assert(r == Some(q2));
                assert(cand.pos == a && cand.offset == s[a].offset);
                if c.layout == Layout::Http {
                    assert(e.end == min_int(e.start + b + 1, level_end(n, b, 0) as int));
                    if k < items.len() {
                        assert(items[k] == s[a + 1]);
                    }
                    assert(cand.next_offset == if a + 1 < total_nodes(n, b) {
                        Some(s[a + 1].offset)
                    } else {
                        None::<u64>
                    });
                }
                assert(best_ok(c, s, d, q2.best));
                assert forall|leaf: int| leaf_start(n, b) <= leaf < total_nodes(n, b) implies settled(
                    q2.best,
                    d,
                    leaf,
                ) || (exists|j: int|
                    0 <= j < q2.pending.len() && #[trigger] covered_by(c, d, q2.pending[j], leaf)) || (
                covered_by(c, d, e, leaf) && ancestor(n, b, l, leaf) >= e.start + k) by {
                    assert(cand.distance == d[a].1);
                    if settled(q.best, d, leaf) {
                        let x = q.best->Some_0;
                        assert(spec_lt(d[a].1, x.distance));
                        assert(order_key(d[leaf].1) >= order_key(x.distance));
                        assert(settled(q2.best, d, leaf));
                    } else if (exists|j: int|
                        0 <= j < q.pending.len() && #[trigger] covered_by(c, d, q.pending[j], leaf)) {
                        let j = choose|j: int|
                            0 <= j < q.pending.len() && #[trigger] covered_by(c, d, q.pending[j], leaf);
                        assert(q2.pending[j] == q.pending[j]);
                    } else if ancestor(n, b, l, leaf) == a {
                        assert(ancestor(n, b, l, leaf) == leaf);
                        assert(leaf == a);
                        assert(settled(q2.best, d, leaf));
                    }
                }
            } else {
                assert(r == Some(q));
                assert forall|leaf: int| leaf_start(n, b) <= leaf < total_nodes(n, b) implies settled(
                    q.best,
                    d,
                    leaf,
                ) || (exists|j: int| 0 <= j < q.pending.len() && #[trigger] covered_by(c, d, q.pending[j], leaf))
                    || (covered_by(c, d, e, leaf) && ancestor(n, b, l, leaf) >= e.start + k) by {
                    if ancestor(n, b, l, leaf) == a && covered_by(c, d, e, leaf) {
                        assert(leaf == a);
                    }
                }
            }
        } else {
            assert(l >= 1);
            let pp = a - level_start(n, b, l as int);
            assert(level_end(n, b, l as int) == level_start(n, b, l as int) + level_sizes(n, b)[l as int]);
            lemma_inner_node(s, leaves, b, l as int, pp);
            lemma_groups_local(n, b, l - 1, pp);
            let gs = group_start(n, b, l - 1, pp);
            let ge = group_end(n, b, l - 1, pp);
            assert(s[level_start(n, b, l as int) + pp] == s[a]);
            assert(ge <= gs + b) by (nonlinear_arith)
                requires
                    ge == level_start(n, b, l - 1) + min_int((pp + 1) * b, level_sizes(n, b)[l - 1] as int),
                    gs == level_start(n, b, l - 1) + pp * b,
            ;
            let ce = child_entry(c, items[k - 1].offset, (l - 1) as nat, dd);
            assert(ce.start == gs);
            assert(ge <= ce.end);
            assert(entry_ok(c, ce));
            let q2 = NearestProgress { pending: q.pending.push(ce), best: q.best };
            assert(r == Some(q2));
            assert forall|j: int| 0 <= j < q2.pending.len() implies entry_ok(c, #[trigger] q2.pending[j]) by {
                if j < q.pending.len() {
                    assert(q2.pending[j] == q.pending[j]);
                }
            }
            assert forall|leaf: int| leaf_start(n, b) <= leaf < total_nodes(n, b) implies settled(
                q2.best,
                d,
                leaf,
            ) || (exists|j: int| 0 <= j < q2.pending.len() && #[trigger] covered_by(c, d, q2.pending[j], leaf))
                || (covered_by(c, d, e, leaf) && ancestor(n, b, l, leaf) >= e.start + k) by {
                if settled(q.best, d, leaf) {
                } else if (exists|j: int|
                    0 <= j < q.pending.len() && #[trigger] covered_by(c, d, q.pending[j], leaf)) {
                    let j = choose|j: int|
                        0 <= j < q.pending.len() && #[trigger] covered_by(c, d, q.pending[j], leaf);
                    assert(q2.pending[j] == q.pending[j]);
                    assert(covered_by(c, d, q2.pending[j], leaf));
                } else if ancestor(n, b, l, leaf) == a {
                    lemma_ancestor(n, b, l, leaf);
                    let ch = ancestor(n, b, (l - 1) as nat, leaf);
                    assert(child_not_closer(d, level_start(n, b, l as int) + pp, ch));
                    assert(q2.pending[q.pending.len() as int] == ce);
                    assert(covered_by(c, d, q2.pending[q.pending.len() as int], leaf));
                }
            }
        }
    }
}

/// Looking at the nodes of the visited run, read from the tree with
/// their distances, keeps the search sound.
pub proof fn lemma_sound_visit(
    c: NearestConfig,
    s: Seq<NodeItem>,
    leaves: Seq<NodeItem>,
    d: Seq<(u64, u64)>,
    p: NearestProgress,
    e: NearestEntry,
)
    requires
        well_built(s, leaves, c.node_size as nat),
        shape_ok(leaves.len(), c.node_size as nat),
        c.num_items == leaves.len(),
        dists_ok(c.num_items as nat, c.node_size as nat, d),
        nearest_sound(c, s, d, p, Some(e)),
    ensures
        nearest_visits(
            c,
            e,
            s.subrange(e.start as int, e.end as int),
            d.subrange(e.start as int, e.end as int),
            (e.end - e.start) as nat,
            p,
        ) matches Some(q) && nearest_sound(c, s, d, q, None),
{
    let n = c.num_items as nat;
    let b = c.node_size as nat;
    assert(entry_ok(c, e));
    lemma_visit_inv(c, s, leaves, d, p, e, e.end - e.start);
    let q = nearest_visits(
        c,
        e,
        s.subrange(e.start as int, e.end as int),
        d.subrange(e.start as int, e.end as int),
        (e.end - e.start) as nat,
        p,
    )->Some_0;
    assert forall|leaf: int| leaf_start(n, b) <= leaf < total_nodes(n, b) implies settled(q.best, d, leaf)
        || (exists|j: int| 0 <= j < q.pending.len() && #[trigger] covered_by(c, d, q.pending[j], leaf))
        || (None::<NearestEntry> matches Some(e2) && covered_by(c, d, e2, leaf)) by {
    }
}

} // verus!
