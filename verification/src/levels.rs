//! The shape of a packed R-tree: how many nodes each level holds and where
//! each level is stored.
//!
//! Level 0 holds the leaves and each level above holds one node for every
//! `b` nodes of the level below, rounded up, until a level holds one node:
//! the root.  The levels are stored top-down, the root first and the leaves
//! last.

use vstd::prelude::*;

verus! {

/// `n / b` rounded up.
pub open spec fn ceil_div(n: nat, b: nat) -> nat {
    ((n + b - 1) / b as int) as nat
}

/// `n / b` rounded up, from the quotient and the remainder.
pub proof fn lemma_ceil_div_parts(n: int, b: int)
    requires
        n >= 0,
        b >= 2,
    ensures
        ceil_div(n as nat, b as nat) == n / b + if n % b == 0 {
            0int
        } else {
            1int
        },
{
    let q = n / b;
    let r = n % b;
    vstd::arithmetic::div_mod::lemma_fundamental_div_mod(n, b);
    vstd::arithmetic::div_mod::lemma_mod_bound(n, b);
    if r == 0 {
        assert(n + b - 1 == b * q + (b - 1));
        vstd::arithmetic::div_mod::lemma_div_multiples_vanish_fancy(q, b - 1, b);
    } else {
        assert(b * (q + 1) == b * q + b) by (nonlinear_arith);
        assert(n + b - 1 == b * (q + 1) + (r - 1));
        vstd::arithmetic::div_mod::lemma_div_multiples_vanish_fancy(q + 1, r - 1, b);
    }
}

pub proof fn lemma_ceil_div_shrinks(n: nat, b: nat)
    requires
        n >= 2,
        b >= 2,
    ensures
        1 <= ceil_div(n, b) < n,
{
    assert(n + b - 1 < n * b) by (nonlinear_arith)
        requires
            n >= 2,
            b >= 2,
    ;
    assert((n + b - 1) / (b as int) < n) by (nonlinear_arith)
        requires
            n + b - 1 < n * b,
            b >= 2,
            n >= 2,
    ;
    assert((n + b - 1) / (b as int) >= 1) by (nonlinear_arith)
        requires
            n + b - 1 >= b,
            b >= 2,
    ;
}

/// The sizes of the levels above a level of `n` nodes, bottom-up.
pub open spec fn upper_sizes(n: nat, b: nat) -> Seq<nat>
    decreases n,
{
    if b < 2 || n <= 1 {
        seq![1nat]
    } else {
        let m = ceil_div(n, b);
        if m <= 1 {
            seq![1nat]
        } else {
            proof {
                lemma_ceil_div_shrinks(n, b);
            }
            seq![m] + upper_sizes(m, b)
        }
    }
}

/// The number of nodes on each level, from the leaves (`n` of them) up to
/// the root.
pub open spec fn level_sizes(n: nat, b: nat) -> Seq<nat> {
    seq![n] + upper_sizes(n, b)
}

/// The sum of a sequence of naturals.
pub open spec fn seq_sum(s: Seq<nat>) -> nat
    decreases s.len(),
{
    if s.len() == 0 {
        0
    } else {
        s[0] + seq_sum(s.drop_first())
    }
}

/// The number of nodes of a tree with `n` leaves and branching factor `b`.
pub open spec fn total_nodes(n: nat, b: nat) -> nat {
    seq_sum(level_sizes(n, b))
}

/// Where level `k` starts: after all the levels above it.
pub open spec fn level_start(n: nat, b: nat, k: int) -> nat {
    seq_sum(level_sizes(n, b).skip(k + 1))
}

/// Where level `k` ends.
pub open spec fn level_end(n: nat, b: nat, k: int) -> nat {
    level_start(n, b, k) + level_sizes(n, b)[k]
}

/// The levels as ranges of node positions, leaves first.
pub open spec fn spec_level_bounds(n: nat, b: nat) -> Seq<core::ops::Range<usize>> {
    Seq::new(
        level_sizes(n, b).len(),
        |k: int| (core::ops::Range { start: level_start(n, b, k) as usize, end: level_end(n, b, k) as usize }),
    )
}

/// The nodes of the tree, at 40 bytes each, have a size in bytes that
/// fits in `usize`: a tree held in memory or written out satisfies it.
pub open spec fn index_fits(n: nat, b: nat) -> bool {
    total_nodes(n, b) * 40 <= usize::MAX
}

/// The requirements of the tree shape: at least one leaf, a branching
/// factor of at least two, a leaf count below the bound that the shape
/// computation checks, and a node count that fits in `usize`.
pub open spec fn shape_ok(n: nat, b: nat) -> bool {
    &&& n >= 1
    &&& b >= 2
    &&& n <= usize::MAX - (n / b) * 2
    &&& total_nodes(n, b) <= usize::MAX
}

proof fn lemma_upper_sizes_step(n: nat, b: nat)
    requires
        n >= 1,
        b >= 2,
    ensures
        ceil_div(n, b) >= 1,
        n == 1 ==> ceil_div(n, b) == 1,
        ceil_div(n, b) <= 1 ==> upper_sizes(n, b) == seq![1nat],
        ceil_div(n, b) > 1 ==> upper_sizes(n, b) == seq![ceil_div(n, b)] + upper_sizes(
            ceil_div(n, b),
            b,
        ),
{
    if n >= 2 {
        lemma_ceil_div_shrinks(n, b);
    } else {
        assert((1 + b - 1) / (b as int) == 1) by (nonlinear_arith)
            requires
                b >= 2,
        ;
    }
}

proof fn lemma_seq_sum_append(s: Seq<nat>, t: Seq<nat>)
    ensures
        seq_sum(s + t) == seq_sum(s) + seq_sum(t),
    decreases s.len(),
{
    if s.len() == 0 {
        assert(s + t =~= t);
    } else {
        lemma_seq_sum_append(s.drop_first(), t);
        assert((s + t).drop_first() =~= s.drop_first() + t);
    }
}

proof fn lemma_seq_sum_single(x: nat)
    ensures
        seq_sum(seq![x]) == x,
{
    reveal_with_fuel(seq_sum, 2);
}

proof fn lemma_seq_sum_skip(s: Seq<nat>, k: int)
    requires
        0 <= k < s.len(),
    ensures
        seq_sum(s.skip(k)) == s[k] + seq_sum(s.skip(k + 1)),
{
    assert(s.skip(k).drop_first() =~= s.skip(k + 1));
}

/// The sizes of the levels, bottom-up; with their start and end positions.
pub fn generate_level_bounds(num_items: usize, node_size: u16) -> (r: Vec<core::ops::Range<usize>>)
    requires
        shape_ok(num_items as nat, node_size as nat),
    ensures
        r@ == spec_level_bounds(num_items as nat, node_size as nat),
{
    let ghost n0 = num_items as nat;
    let ghost b = node_size as nat;
    let ghost sizes = level_sizes(n0, b);
    let bs = node_size as usize;
    // number of nodes per level in bottom-up order
    let mut level_num_nodes: Vec<usize> = Vec::new();
    let mut n = num_items;
    let mut num_nodes = n;
    level_num_nodes.push(n);
    proof {
        lemma_seq_sum_append(seq![n0], upper_sizes(n0, b));
        lemma_seq_sum_single(n0);
    }
    loop
        invariant_except_break
            n >= 1,
            level_num_nodes@.len() >= 1,
            level_num_nodes@.last() == n,
            level_num_nodes@.map_values(|x: usize| x as nat) + upper_sizes(n as nat, b) == sizes,
            num_nodes + seq_sum(upper_sizes(n as nat, b)) == total_nodes(n0, b),
        invariant
            total_nodes(n0, b) <= usize::MAX,
            bs == b,
            b >= 2,
        ensures
            level_num_nodes@.map_values(|x: usize| x as nat) == sizes,
            num_nodes == total_nodes(n0, b),
        decreases n,
    {
        let ghost prev = level_num_nodes@;
        proof {
            lemma_upper_sizes_step(n as nat, b);
        }
        let q = n / bs;
        assert(q < n) by (nonlinear_arith)
            requires
                q == n / bs,
                bs >= 2,
                n >= 1,
        ;
        let m = if n % bs == 0 { q } else { q + 1 };
        proof {
            lemma_ceil_div_parts(n as int, bs as int);
        }
        assert(m == ceil_div(n as nat, b));
        proof {
            if m > 1 {
                lemma_seq_sum_append(seq![m as nat], upper_sizes(m as nat, b));
                lemma_seq_sum_single(m as nat);
            } else {
                lemma_seq_sum_single(1nat);
            }
        }
        n = m;
        num_nodes = num_nodes + n;
        level_num_nodes.push(n);
        assert(level_num_nodes@.map_values(|x: usize| x as nat) =~= prev.map_values(
            |x: usize| x as nat,
        ).push(m as nat));
        proof {
            if m > 1 {
                assert(level_num_nodes@.map_values(|x: usize| x as nat) + upper_sizes(n as nat, b)
                    =~= prev.map_values(|x: usize| x as nat) + (seq![m as nat] + upper_sizes(
                    m as nat,
                    b,
                )));
            } else {
                assert(level_num_nodes@.map_values(|x: usize| x as nat) =~= prev.map_values(
                    |x: usize| x as nat,
                ) + seq![1nat]);
            }
        }
        if n == 1 {
            break ;
        }
    }
    // bounds per level in reversed storage order (top-down)
    let mut level_bounds: Vec<core::ops::Range<usize>> = Vec::new();
    let mut rest = num_nodes;
    let mut i: usize = 0;
    assert(sizes.skip(0) =~= sizes);
    while i < level_num_nodes.len()
        invariant
            i <= level_num_nodes@.len(),
            sizes == level_sizes(n0, b),
            level_num_nodes@.map_values(|x: usize| x as nat) == sizes,
            rest == seq_sum(sizes.skip(i as int)),
            level_bounds@.len() == i,
            forall|k: int|
                0 <= k < i ==> #[trigger] level_bounds@[k] == spec_level_bounds(n0, b)[k],
        decreases level_num_nodes@.len() - i,
    {
        assert(sizes.len() == level_num_nodes@.len());
        proof {
            lemma_seq_sum_skip(sizes, i as int);
        }
        let size = level_num_nodes[i];
        assert(size == sizes[i as int]);
        let start = rest - size;
        level_bounds.push(start..start + size);
        assert(start == level_start(n0, b, i as int));
        assert(level_bounds@[i as int] == spec_level_bounds(n0, b)[i as int]);
        rest = start;
        i = i + 1;
    }
    assert(level_bounds@ =~= spec_level_bounds(n0, b));
    level_bounds
}

/// Facts about the level sizes: the leaf level holds `n` nodes, the top
/// level one node, each level holds the nodes of the level below divided by
/// `b` and rounded up, and there are at least two levels.
pub proof fn lemma_level_sizes(n: nat, b: nat)
    requires
        n >= 1,
        b >= 2,
    ensures
        level_sizes(n, b).len() >= 2,
        level_sizes(n, b)[0] == n,
        level_sizes(n, b).last() == 1,
        forall|k: int|
            0 <= k < level_sizes(n, b).len() ==> #[trigger] level_sizes(n, b)[k] >= 1,
        forall|k: int|
            0 <= k < level_sizes(n, b).len() - 1 ==> #[trigger] level_sizes(n, b)[k + 1]
                == ceil_div(level_sizes(n, b)[k], b),
    decreases n,
{
    lemma_upper_sizes_step(n, b);
    let m = ceil_div(n, b);
    if m > 1 {
        lemma_ceil_div_shrinks(n, b);
        lemma_level_sizes(m, b);
        let s = level_sizes(n, b);
        let t = level_sizes(m, b);
        assert(s =~= seq![n] + t);
        assert forall|k: int| 0 <= k < s.len() implies #[trigger] s[k] >= 1 by {
            if k > 0 {
                assert(s[k] == t[k - 1]);
            }
        }
        assert forall|k: int| 0 <= k < s.len() - 1 implies #[trigger] s[k + 1] == ceil_div(
            s[k],
            b,
        ) by {
            if k > 0 {
                let kk = k - 1;
                assert(t[kk + 1] == ceil_div(t[kk], b));
                assert(s[k] == t[k - 1]);
                assert(s[k + 1] == t[k]);
            } else {
                assert(s[1] == t[0]);
            }
        }
    } else {
        assert(level_sizes(n, b) =~= seq![n, 1nat]);
    }
}

/// Facts about where the levels are stored: the top level starts at 0,
/// each level ends where the level below starts, and the leaf level ends
/// at the node count.
pub proof fn lemma_level_positions(n: nat, b: nat)
    requires
        n >= 1,
        b >= 2,
    ensures
        level_start(n, b, level_sizes(n, b).len() - 1) == 0,
        level_end(n, b, 0) == total_nodes(n, b),
        forall|k: int|
            0 <= k < level_sizes(n, b).len() - 1 ==> #[trigger] level_end(n, b, k + 1)
                == level_start(n, b, k),
        forall|k: int, j: int|
            0 <= k <= j < level_sizes(n, b).len() ==> #[trigger] level_end(n, b, j)
                <= #[trigger] level_end(n, b, k),
        forall|k: int|
            0 <= k < level_sizes(n, b).len() ==> #[trigger] level_end(n, b, k) <= total_nodes(
                n,
                b,
            ),
        forall|k: int, j: int|
            0 <= k <= j < level_sizes(n, b).len() ==> #[trigger] level_start(n, b, j)
                <= #[trigger] level_start(n, b, k),
{
    let s = level_sizes(n, b);
    lemma_level_sizes(n, b);
    assert(s.skip(s.len() as int) =~= Seq::<nat>::empty());
    assert(seq_sum(s.skip(0)) == s[0] + seq_sum(s.skip(1))) by {
        lemma_seq_sum_skip(s, 0);
    }
    assert(s.skip(0) =~= s);
    assert forall|k: int| 0 <= k < s.len() - 1 implies #[trigger] level_end(n, b, k + 1)
        == level_start(n, b, k) by {
        lemma_seq_sum_skip(s, k + 1);
    }
    assert forall|k: int, j: int| 0 <= k <= j < s.len() implies #[trigger] level_end(n, b, j)
        <= #[trigger] level_end(n, b, k) by {
        lemma_level_end_monotone(n, b, k, j);
    }
    assert forall|k: int| 0 <= k < s.len() implies #[trigger] level_end(n, b, k) <= total_nodes(
        n,
        b,
    ) by {
        lemma_level_end_monotone(n, b, 0, k);
    }
    assert forall|k: int, j: int| 0 <= k <= j < s.len() implies #[trigger] level_start(n, b, j)
        <= #[trigger] level_start(n, b, k) by {
        lemma_level_start_monotone(n, b, k, j);
    }
}

proof fn lemma_level_start_monotone(n: nat, b: nat, k: int, j: int)
    requires
        n >= 1,
        b >= 2,
        0 <= k <= j < level_sizes(n, b).len(),
    ensures
        level_start(n, b, j) <= level_start(n, b, k),
    decreases j - k,
{
    let s = level_sizes(n, b);
    if k < j {
        lemma_level_start_monotone(n, b, k + 1, j);
        lemma_seq_sum_skip(s, k + 1);
    }
}

proof fn lemma_level_end_monotone(n: nat, b: nat, k: int, j: int)
    requires
        n >= 1,
        b >= 2,
        0 <= k <= j < level_sizes(n, b).len(),
    ensures
        level_end(n, b, j) <= level_end(n, b, k),
    decreases j - k,
{
    let s = level_sizes(n, b);
    if k < j {
        lemma_level_end_monotone(n, b, k + 1, j);
        lemma_seq_sum_skip(s, k + 1);
    }
}

/// Dividing `c` nodes into groups of `b`: the last group is not empty and
/// together the groups hold all of them.
pub proof fn lemma_groups(c: nat, b: nat)
    requires
        c >= 1,
        b >= 2,
    ensures
        (ceil_div(c, b) - 1) * b < c,
        c <= ceil_div(c, b) * b,
{
    let m = ceil_div(c, b);
    assert((m - 1) * b < c && c <= m * b) by (nonlinear_arith)
        requires
            m == (c + b - 1) / (b as int),
            c >= 1,
            b >= 2,
    ;
}

/// There are no more levels than nodes.
pub proof fn lemma_levels_fewer_than_nodes(n: nat, b: nat)
    requires
        n >= 1,
        b >= 2,
    ensures
        level_sizes(n, b).len() <= total_nodes(n, b),
{
    lemma_level_sizes(n, b);
    lemma_sum_at_least_len(level_sizes(n, b));
}

proof fn lemma_sum_at_least_len(s: Seq<nat>)
    requires
        forall|k: int| 0 <= k < s.len() ==> #[trigger] s[k] >= 1,
    ensures
        s.len() <= seq_sum(s),
    decreases s.len(),
{
    if s.len() > 0 {
        assert forall|k: int| 0 <= k < s.drop_first().len() implies #[trigger] s.drop_first()[k]
            >= 1 by {
            assert(s.drop_first()[k] == s[k + 1]);
        }
        lemma_sum_at_least_len(s.drop_first());
        assert(s[0] >= 1);
    }
}

/// The number of nodes of a tree with `num_items` leaves and branching
/// factor `node_size`.
pub fn node_count(num_items: usize, node_size: u16) -> (r: usize)
    requires
        node_size >= 2,
        num_items >= 1,
        total_nodes(num_items as nat, node_size as nat) <= usize::MAX,
    ensures
        r == total_nodes(num_items as nat, node_size as nat),
{
    let ghost n0 = num_items as nat;
    let ghost b = node_size as nat;
    let bs = node_size as usize;
    let mut n = num_items;
    let mut num_nodes = n;
    proof {
        lemma_seq_sum_append(seq![n0], upper_sizes(n0, b));
        lemma_seq_sum_single(n0);
    }
    loop
        invariant_except_break
            n >= 1,
            num_nodes + seq_sum(upper_sizes(n as nat, b)) == total_nodes(n0, b),
        invariant
            total_nodes(n0, b) <= usize::MAX,
            bs == b,
            b >= 2,
        ensures
            num_nodes == total_nodes(n0, b),
        decreases n,
    {
        proof {
            lemma_upper_sizes_step(n as nat, b);
        }
        let q = n / bs;
        assert(q < n) by (nonlinear_arith)
            requires
                q == n / bs,
                bs >= 2,
                n >= 1,
        ;
        let m = if n % bs == 0 { q } else { q + 1 };
        proof {
            lemma_ceil_div_parts(n as int, bs as int);
        }
        assert(m == ceil_div(n as nat, b));
        proof {
            if m > 1 {
                lemma_seq_sum_append(seq![m as nat], upper_sizes(m as nat, b));
                lemma_seq_sum_single(m as nat);
            } else {
                lemma_seq_sum_single(1nat);
            }
        }
        n = m;
        num_nodes = num_nodes + n;
        if n == 1 {
            break ;
        }
    }
    num_nodes
}

/// The number of nodes of a tree with `num_items` leaves and branching
/// factor `node_size`, when the shape is one a tree can have and its index
/// size in bytes fits in `usize`; `None` otherwise.
pub fn checked_node_count(num_items: usize, node_size: u16) -> (r: Option<usize>)
    ensures
        r == if shape_ok(num_items as nat, node_size as nat) && index_fits(
            num_items as nat,
            node_size as nat,
        ) {
            Some(total_nodes(num_items as nat, node_size as nat) as usize)
        } else {
            None::<usize>
        },
{
    let ghost n0 = num_items as nat;
    let ghost b = node_size as nat;
    if node_size < 2 || num_items == 0 {
        return None;
    }
    let bs = node_size as usize;
    assert(n0 / b == num_items / bs);
    if num_items / bs > (usize::MAX - num_items) / 2 {
        assert(num_items > usize::MAX - (num_items / bs) * 2) by (nonlinear_arith)
            requires
                num_items / bs > (usize::MAX - num_items) / 2,
                num_items <= usize::MAX,
        ;
        return None;
    }
    assert(num_items <= usize::MAX - (num_items / bs) * 2) by (nonlinear_arith)
        requires
            num_items / bs <= (usize::MAX - num_items) / 2,
            num_items <= usize::MAX,
    ;
    let mut n = num_items;
    let mut num_nodes = n;
    proof {
        lemma_seq_sum_append(seq![n0], upper_sizes(n0, b));
        lemma_seq_sum_single(n0);
    }
    loop
        invariant_except_break
            n >= 1,
            num_nodes + seq_sum(upper_sizes(n as nat, b)) == total_nodes(n0, b),
        invariant
            bs == b,
            b >= 2,
            n0 == num_items as nat,
            b == node_size as nat,
            n0 >= 1,
            n0 <= usize::MAX - (n0 / b) * 2,
        ensures
            num_nodes == total_nodes(n0, b),
        decreases n,
    {
        proof {
            lemma_upper_sizes_step(n as nat, b);
        }
        let q = n / bs;
        assert(q < n) by (nonlinear_arith)
            requires
                q == n / bs,
                bs >= 2,
                n >= 1,
        ;
        let m = if n % bs == 0 { q } else { q + 1 };
        proof {
            lemma_ceil_div_parts(n as int, bs as int);
        }
        assert(m == ceil_div(n as nat, b));
        proof {
            if m > 1 {
                lemma_seq_sum_append(seq![m as nat], upper_sizes(m as nat, b));
                lemma_seq_sum_single(m as nat);
            } else {
                lemma_seq_sum_single(1nat);
            }
        }
        if num_nodes > usize::MAX - m {
            proof {
                lemma_upper_sum_step(m as nat, b);
            }
            assert(total_nodes(n0, b) > usize::MAX);
            assert(!index_fits(n0, b));
            return None;
        }
        n = m;
        num_nodes = num_nodes + n;
        if n == 1 {
            break ;
        }
    }
    if num_nodes > usize::MAX / 40 {
        assert(num_nodes * 40 > usize::MAX) by (nonlinear_arith)
            requires
                num_nodes > usize::MAX / 40,
        ;
        return None;
    }
    assert(num_nodes * 40 <= usize::MAX) by (nonlinear_arith)
        requires
            num_nodes <= usize::MAX / 40,
    ;
    assert(shape_ok(n0, b));
    Some(num_nodes)
}

/// The sizes of the levels above the leaves add up to one more level's
/// worth: the size of the level above, and the levels above that.
proof fn lemma_upper_sum_step(n: nat, b: nat)
    requires
        b >= 2,
    ensures
        seq_sum(upper_sizes(n, b)) == if n <= 1 || ceil_div(n, b) <= 1 {
            1nat
        } else {
            ceil_div(n, b) + seq_sum(upper_sizes(ceil_div(n, b), b))
        },
        seq_sum(upper_sizes(n, b)) >= 1,
    decreases n,
{
    if n <= 1 || ceil_div(n, b) <= 1 {
        lemma_seq_sum_single(1);
    } else {
        let m = ceil_div(n, b);
        lemma_ceil_div_shrinks(n, b);
        assert((seq![m] + upper_sizes(m, b)).drop_first() =~= upper_sizes(m, b));
        if m <= 1 || ceil_div(m, b) <= 1 {
            lemma_seq_sum_single(1);
        } else {
            lemma_upper_sum_step(m, b);
        }
    }
}

proof fn lemma_upper_sum_monotone(n1: nat, n2: nat, b: nat)
    requires
        b >= 2,
        n1 <= n2,
    ensures
        seq_sum(upper_sizes(n1, b)) <= seq_sum(upper_sizes(n2, b)),
    decreases n2,
{
    lemma_upper_sum_step(n1, b);
    lemma_upper_sum_step(n2, b);
    let c1 = ceil_div(n1, b);
    let c2 = ceil_div(n2, b);
    assert(c1 <= c2) by {
        vstd::arithmetic::div_mod::lemma_div_is_ordered(n1 + b - 1, n2 + b - 1, b as int);
    }
    if !(n2 <= 1 || c2 <= 1) && !(n1 <= 1 || c1 <= 1) {
        lemma_ceil_div_shrinks(n2, b);
        lemma_upper_sum_step(c1, b);
        lemma_upper_sum_monotone(c1, c2, b);
    }
}

/// A tree has at least one node more than leaves, and a tree with more
/// leaves has at least as many nodes.
pub proof fn lemma_total_nodes_bounds(n1: nat, n2: nat, b: nat)
    requires
        b >= 2,
        n1 <= n2,
    ensures
        total_nodes(n1, b) >= n1 + 1,
        total_nodes(n1, b) <= total_nodes(n2, b),
{
    assert((seq![n1] + upper_sizes(n1, b)).drop_first() =~= upper_sizes(n1, b));
    assert((seq![n2] + upper_sizes(n2, b)).drop_first() =~= upper_sizes(n2, b));
    lemma_upper_sum_step(n1, b);
    lemma_upper_sum_monotone(n1, n2, b);
}

} // verus!
