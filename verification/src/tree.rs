//! The packed Hilbert R-tree: building it from leaves, reading it back from
//! bytes, and searching it.

use crate::error::Error;
use crate::levels::{
    lemma_total_nodes_bounds,
    ceil_div, generate_level_bounds, lemma_groups, lemma_level_positions, lemma_level_sizes,
    level_end, level_sizes, level_start, shape_ok, spec_level_bounds, total_nodes, index_fits, node_count,
};
use crate::node::{expand_all, nodes_bytes, nodes_from_bytes, spec_create, NodeItem, NODE_ITEM_SIZE};
use crate::search::{
    entry_end, frontier, frontier_hits, frontier_pushes, hits_upto, lemma_frontier_levels,
    lemma_frontier_pushes_grow, lemma_range_pushes_grow, leaf_result, node_matches, query_matches,
    range_hits, range_pushes, spec_search, top_level, Query, SearchResultItem,
};
use vstd::prelude::*;

verus! {

/// The first position of the leaf level.
pub open spec fn leaf_start(n: nat, b: nat) -> nat {
    level_start(n, b, 0)
}

/// The smaller of two integers.
pub open spec fn min_int(a: int, b: int) -> int {
    if a <= b {
        a
    } else {
        b
    }
}

/// Where the children of the `p`-th node of level `c + 1` begin: they are
/// the `p`-th group of `b` nodes on level `c`.
pub open spec fn group_start(n: nat, b: nat, c: int, p: int) -> int {
    level_start(n, b, c) + p * b
}

/// Where the children of the `p`-th node of level `c + 1` end.
pub open spec fn group_end(n: nat, b: nat, c: int, p: int) -> int {
    level_start(n, b, c) + min_int((p + 1) * b, level_sizes(n, b)[c] as int)
}

/// The node that stands for its children: the empty box grown by each
/// child, with the position of the first child as offset.
pub open spec fn parent_of(nodes: Seq<NodeItem>, n: nat, b: nat, c: int, p: int) -> NodeItem {
    expand_all(
        spec_create(group_start(n, b, c, p) as u64),
        nodes.subrange(group_start(n, b, c, p), group_end(n, b, c, p)),
    )
}

/// `nodes` is the tree built over `leaves` with branching factor `b`: the
/// leaves are stored in order at the end, and every node above stands for
/// its group of children.
pub open spec fn well_built(nodes: Seq<NodeItem>, leaves: Seq<NodeItem>, b: nat) -> bool {
    let n = leaves.len();
    &&& nodes.len() == total_nodes(n, b)
    &&& forall|i: int| 0 <= i < n ==> #[trigger] nodes[leaf_start(n, b) + i] == leaves[i]
    &&& forall|l: int, p: int|
        1 <= l < level_sizes(n, b).len() && 0 <= p < level_sizes(n, b)[l] ==> #[trigger] nodes[level_start(n, b, l) + p]
            == parent_of(nodes, n, b, l - 1, p)
}

/// Packed Hilbert R-Tree
pub struct PackedRTree {
    extent: NodeItem,
    node_items: Vec<NodeItem>,
    num_leaf_nodes: usize,
    branching_factor: u16,
    level_bounds: Vec<core::ops::Range<usize>>,
}

impl PackedRTree {
    pub const DEFAULT_NODE_SIZE: u16 = 16;

    #[verifier::type_invariant]
    spec fn inv(self) -> bool {
        &&& shape_ok(self.num_leaf_nodes as nat, self.branching_factor as nat)
        &&& index_fits(self.num_leaf_nodes as nat, self.branching_factor as nat)
        &&& self.level_bounds@ == spec_level_bounds(
            self.num_leaf_nodes as nat,
            self.branching_factor as nat,
        )
        &&& self.node_items@.len() == total_nodes(
            self.num_leaf_nodes as nat,
            self.branching_factor as nat,
        )
    }

    /// All nodes, the root first and the leaves last.
    pub closed spec fn nodes(self) -> Seq<NodeItem> {
        self.node_items@
    }

    /// The number of leaves.
    pub closed spec fn num_leaves(self) -> nat {
        self.num_leaf_nodes as nat
    }

    /// The branching factor.
    pub closed spec fn node_size(self) -> nat {
        self.branching_factor as nat
    }

    /// The box that the tree reports as its extent.
    pub closed spec fn spec_extent(self) -> NodeItem {
        self.extent
    }
    /// Builds the tree over `nodes`, taken as the leaves in their order;
    /// `extent` is kept as the tree's extent.
    pub fn build(nodes: &[NodeItem], extent: &NodeItem, node_size: u16) -> (r: Result<
        PackedRTree,
        Error,
    >)
        requires
            shape_ok(nodes@.len(), node_size as nat),
            index_fits(nodes@.len(), node_size as nat),
        ensures
            r matches Ok(t) && {
                &&& t.num_leaves() == nodes@.len()
                &&& t.node_size() == node_size
                &&& t.spec_extent() == *extent
                &&& well_built(t.nodes(), nodes@, node_size as nat)
            },
    {
        let ghost n = nodes@.len();
        let ghost b = node_size as nat;
        let num_leaf_nodes = nodes.len();
        let level_bounds = generate_level_bounds(num_leaf_nodes, node_size);
        proof {
            lemma_level_sizes(n, b);
            lemma_level_positions(n, b);
        }
        let num_nodes = level_bounds[0].end;
        let mut node_items = vec![NodeItem::create(0); num_nodes];
        let leaf_base = num_nodes - num_leaf_nodes;
        assert(leaf_base == leaf_start(n, b));
        let mut i: usize = 0;
        while i < num_leaf_nodes
            invariant
                n == num_leaf_nodes,
                num_leaf_nodes == nodes@.len(),
                node_items@.len() == num_nodes,
                num_nodes == total_nodes(n, b),
                leaf_base == leaf_start(n, b),
                leaf_base + num_leaf_nodes == num_nodes,
                i <= num_leaf_nodes,
                forall|k: int| 0 <= k < i ==> #[trigger] node_items@[leaf_base + k] == nodes@[k],
            decreases num_leaf_nodes - i,
        {
            node_items.set(leaf_base + i, nodes[i]);
            i = i + 1;
        }
        generate_nodes(&mut node_items, &level_bounds, num_leaf_nodes, node_size, Ghost(nodes@));
        Ok(PackedRTree {
            extent: *extent,
            node_items,
            num_leaf_nodes,
            branching_factor: node_size,
            level_bounds,
        })
    }

    /// Search the R-Tree using a specific query type
    pub fn search(&self, query: Query) -> (r: Result<Vec<SearchResultItem>, Error>)
        ensures
            match spec_search(self.nodes(), self.num_leaves(), self.node_size(), query) {
                None => r == Err::<Vec<SearchResultItem>, Error>(Error::CorruptIndex),
                Some(hits) => r matches Ok(v) && v@ == hits,
            },
    {
        proof {
            use_type_invariant(self);
        }
        let ghost nodes = self.node_items@;
        let ghost n = self.num_leaf_nodes as nat;
        let ghost b = self.branching_factor as nat;
        proof {
            lemma_level_sizes(n, b);
            lemma_level_positions(n, b);
        }
        let leaf_nodes_offset = self.level_bounds[0].start;
        let top = self.level_bounds.len() - 1;
        let bf = self.branching_factor as usize;
        let mut results: Vec<SearchResultItem> = Vec::new();
        let mut current: Vec<(usize, usize)> = Vec::new();
        current.push((0, top));
        let mut level = top;
        let ghost mut j: nat = 0;
        assert(current@ =~= frontier(nodes, n, b, query, 0));
        assert(results@ =~= hits_upto(nodes, n, b, query, 0));
        loop
            invariant
                nodes == self.node_items@,
                n == self.num_leaf_nodes,
                b == self.branching_factor,
                bf == b,
                shape_ok(n, b),
                self.level_bounds@ == spec_level_bounds(n, b),
                nodes.len() == total_nodes(n, b),
                leaf_nodes_offset == leaf_start(n, b),
                top == top_level(n, b),
                level + j == top,
                current@ == frontier(nodes, n, b, query, j),
                results@ == hits_upto(nodes, n, b, query, j),
            decreases level,
        {
            proof {
                lemma_frontier_levels(nodes, n, b, query, j);
                lemma_level_sizes(n, b);
                lemma_level_positions(n, b);
            }
            let mut next: Vec<(usize, usize)> = Vec::new();
            let mut k: usize = 0;
            assert(current@.take(0) =~= Seq::<(usize, usize)>::empty());
            while k < current.len()
                invariant
                    nodes == self.node_items@,
                    n == self.num_leaf_nodes,
                    b == self.branching_factor,
                    bf == b,
                    b >= 2,
                    shape_ok(n, b),
                    self.level_bounds@ == spec_level_bounds(n, b),
                    nodes.len() == total_nodes(n, b),
                    forall|kk: int|
                        0 <= kk < level_sizes(n, b).len() ==> #[trigger] level_end(n, b, kk)
                            <= total_nodes(n, b),
                    leaf_nodes_offset == leaf_start(n, b),
                    top == top_level(n, b),
                    level + j == top,
                    k <= current@.len(),
                    current@ == frontier(nodes, n, b, query, j),
                    forall|i: int| 0 <= i < current@.len() ==> #[trigger] current@[i].1 == level,
                    results@ == hits_upto(nodes, n, b, query, j) + frontier_hits(
                        nodes,
                        n,
                        b,
                        query,
                        current@.take(k as int),
                    ),
                    next@ == frontier_pushes(nodes, n, b, query, current@.take(k as int)),
                    level == 0 ==> next@.len() == 0,
                decreases current@.len() - k,
            {
                let (node_index, lvl) = current[k];
                assert(lvl == level);
                let candidate = if node_index > usize::MAX - bf {
                    usize::MAX
                } else {
                    node_index + bf
                };
                let level_end_pos = self.level_bounds[lvl].end;
                let end = if candidate < level_end_pos {
                    candidate
                } else {
                    level_end_pos
                };
                assert(self.level_bounds@[lvl as int] == spec_level_bounds(n, b)[lvl as int]);
                assert(level_end(n, b, lvl as int) <= total_nodes(n, b));
                assert(level_end_pos == level_end(n, b, lvl as int));
                assert(end == entry_end(n, b, current@[k as int]));
                let ghost base_results = results@;
                let ghost base_next = next@;
                let mut pos = node_index;
                while pos < end
                    invariant
                        nodes == self.node_items@,
                        n == self.num_leaf_nodes,
                        b == self.branching_factor,
                        nodes.len() == total_nodes(n, b),
                        end <= total_nodes(n, b),
                        leaf_nodes_offset == leaf_start(n, b),
                        node_index <= pos,
                        pos <= end || end < node_index,
                        end < node_index ==> pos == node_index,
                        end == entry_end(n, b, current@[k as int]),
                        lvl == level,
                        results@ == base_results + range_hits(
                            nodes,
                            n,
                            b,
                            query,
                            node_index as int,
                            pos as int,
                        ),
                        next@ == base_next + range_pushes(
                            nodes,
                            n,
                            b,
                            query,
                            node_index as int,
                            pos as int,
                            lvl as int,
                        ),
                        base_next == frontier_pushes(nodes, n, b, query, current@.take(k as int)),
                        current@ == frontier(nodes, n, b, query, j),
                        k < current@.len(),
                        current@[k as int] == (node_index, lvl),
                        node_index as int + 0 <= pos,
                        level == 0 ==> next@.len() == 0,
                        level + j == top,
                        top == top_level(n, b),
                    decreases end - pos,
                {
                    let node_item = self.node_items[pos];
                    if node_matches(&query, &node_item) {
                        if pos >= leaf_nodes_offset {
                            results.push(
                                SearchResultItem {
                                    offset: node_item.offset as usize,
                                    index: pos - leaf_nodes_offset,
                                },
                            );
                        } else {
                            if lvl == 0 {
                                proof {
                                    let f = frontier(nodes, n, b, query, j);
                                    lemma_range_pushes_grow(
                                        nodes,
                                        n,
                                        b,
                                        query,
                                        node_index as int,
                                        pos + 1,
                                        end as int,
                                        0,
                                    );
                                    assert(f.take(k + 1).drop_last() =~= f.take(k as int));
                                    assert(f.take(k + 1).last() == f[k as int]);
                                    assert(range_pushes(
                                        nodes,
                                        n,
                                        b,
                                        query,
                                        node_index as int,
                                        pos + 1,
                                        0,
                                    ).len() > 0);
                                    assert(frontier_pushes(nodes, n, b, query, f.take(k + 1)).len()
                                        > 0);
                                    lemma_frontier_pushes_grow(nodes, n, b, query, f, k + 1);
                                    assert(j == top);
                                }
                                return Err(Error::CorruptIndex);
                            }
                            next.push((node_item.offset as usize, lvl - 1));
                        }
                    }
                    pos = pos + 1;
                }
                proof {
                    let f = current@;
                    assert(f.take(k + 1).drop_last() =~= f.take(k as int));
                    assert(f.take(k + 1).last() == f[k as int]);
                    if end < node_index {
                        assert(pos == node_index);
                    }
                }
                k = k + 1;
            }
            assert(current@.take(k as int) =~= current@);
            if level == 0 {
                proof {
                    assert(j == top);
                }
                return Ok(results);
            }
            current = next;
            level = level - 1;
            proof {
                j = j + 1;
            }
        }
    }

    /// Reads a tree with `num_items` leaves from the index bytes at the
    /// start of `data`; a branching factor below 2 is taken as 2.  The
    /// extent is the empty box grown by every node of the tree.
    pub fn from_buf(data: &[u8], num_items: usize, node_size: u16) -> (r: Result<PackedRTree, Error>)
        requires
            shape_ok(num_items as nat, if node_size < 2 { 2nat } else { node_size as nat }),
            index_fits(num_items as nat, if node_size < 2 { 2nat } else { node_size as nat }),
        ensures
            ({
                let b = if node_size < 2 { 2nat } else { node_size as nat };
                let count = total_nodes(num_items as nat, b);
                &&& data@.len() < count * 40 ==> r == Err::<PackedRTree, Error>(Error::UnexpectedEof)
                &&& data@.len() >= count * 40 ==> (r matches Ok(t) && {
                    &&& t.num_leaves() == num_items
                    &&& t.node_size() == b
                    &&& t.nodes() == nodes_from_bytes(data@, count)
                    &&& t.spec_extent() == expand_all(spec_create(0), t.nodes())
                })
            }),
    {
        let node_size = if node_size < 2 {
            2
        } else {
            node_size
        };
        let ghost n = num_items as nat;
        let ghost b = node_size as nat;
        let level_bounds = generate_level_bounds(num_items, node_size);
        proof {
            lemma_level_sizes(n, b);
            lemma_level_positions(n, b);
        }
        let num_nodes = level_bounds[0].end;
        if data.len() / NODE_ITEM_SIZE < num_nodes {
            return Err(Error::UnexpectedEof);
        }
        assert(num_nodes * 40 <= data@.len()) by (nonlinear_arith)
            requires
                data@.len() / 40 >= num_nodes,
        ;
        let mut node_items: Vec<NodeItem> = Vec::with_capacity(num_nodes);
        let mut extent = NodeItem::create(0);
        let mut i: usize = 0;
        while i < num_nodes
            invariant
                num_nodes == total_nodes(n, b),
                num_nodes * 40 <= data@.len(),
                i <= num_nodes,
                node_items@ == nodes_from_bytes(data@, num_nodes as nat).take(i as int),
                extent == expand_all(spec_create(0), node_items@),
            decreases num_nodes - i,
        {
            assert(i * 40 + 40 <= data@.len());
            assert(data@.len() == data.len());
            let at = i * NODE_ITEM_SIZE;
            let item = match NodeItem::from_bytes_at(data, at) {
                Ok(item) => item,
                Err(e) => {
                    return Err(e);
                },
            };
            let ghost before = node_items@;
            node_items.push(item);
            extent.expand(&item);
            assert(node_items@ =~= nodes_from_bytes(data@, num_nodes as nat).take(i + 1));
            assert(node_items@.drop_last() =~= before);
            i = i + 1;
        }
        assert(node_items@ =~= nodes_from_bytes(data@, num_nodes as nat));
        Ok(PackedRTree {
            extent,
            node_items,
            num_leaf_nodes: num_items,
            branching_factor: node_size,
            level_bounds,
        })
    }

    /// The number of nodes.
    fn num_nodes(&self) -> (r: usize)
        ensures
            r == self.nodes().len(),
    {
        self.node_items.len()
    }

    /// The size in bytes of the index: 40 bytes for each node.
    pub fn size(&self) -> (r: usize)
        ensures
            r == self.nodes().len() * 40,
            self.nodes().len() == total_nodes(self.num_leaves(), self.node_size()),
    {
        proof {
            use_type_invariant(self);
        }
        self.num_nodes() * NODE_ITEM_SIZE
    }

    /// The size in bytes of the index of a tree with `num_items` leaves and
    /// branching factor `node_size`.
    pub fn index_size(num_items: usize, node_size: u16) -> (r: usize)
        requires
            node_size >= 2,
            num_items >= 1,
            index_fits(num_items as nat, node_size as nat),
        ensures
            r == total_nodes(num_items as nat, node_size as nat) * 40,
            r >= (num_items + 1) * 40,
    {
        proof {
            lemma_total_nodes_bounds(num_items as nat, num_items as nat, node_size as nat);
        }
        let num_nodes = node_count(num_items, node_size);
        num_nodes * NODE_ITEM_SIZE
    }

    /// Write all index nodes
    pub fn stream_write(&self, out: &mut Vec<u8>) -> (r: Result<(), Error>)
        ensures
            r is Ok,
            final(out)@ == old(out)@ + nodes_bytes(self.nodes()),
    {
        let mut i: usize = 0;
        while i < self.node_items.len()
            invariant
                i <= self.node_items@.len(),
                out@ == old(out)@ + nodes_bytes(self.node_items@.take(i as int)),
            decreases self.node_items@.len() - i,
        {
            let ghost before = out@;
            self.node_items[i].write(out);
            assert(self.node_items@.take(i + 1).drop_last() =~= self.node_items@.take(i as int));
            assert(out@ =~= old(out)@ + nodes_bytes(self.node_items@.take(i + 1)));
            i = i + 1;
        }
        assert(self.node_items@.take(i as int) =~= self.node_items@);
        Ok(())
    }

    /// All nodes, the root first and the leaves last.
    pub fn node_items(&self) -> (r: &Vec<NodeItem>)
        ensures
            r@ == self.nodes(),
    {
        &self.node_items
    }

    /// The number of leaves.
    pub fn num_leaf_nodes(&self) -> (r: usize)
        ensures
            r == self.num_leaves(),
    {
        self.num_leaf_nodes
    }

    /// The branching factor.
    pub fn branching_factor(&self) -> (r: u16)
        ensures
            r == self.node_size(),
    {
        self.branching_factor
    }

    /// The levels as ranges of node positions, leaves first.
    pub fn level_bounds(&self) -> (r: Vec<core::ops::Range<usize>>)
        ensures
            r@ == spec_level_bounds(self.num_leaves(), self.node_size()),
    {
        proof {
            use_type_invariant(self);
        }
        generate_level_bounds(self.num_leaf_nodes, self.branching_factor)
    }

    /// The box that the tree reports as its extent.
    pub fn extent(&self) -> (r: NodeItem)
        ensures
            r == self.spec_extent(),
    {
        self.extent
    }

}

/// Computes every node above the leaves from its group of children,
/// level by level from the bottom up.
fn generate_nodes(
node_items: &mut Vec<NodeItem>,
level_bounds: &Vec<core::ops::Range<usize>>,
num_leaf_nodes: usize,
branching_factor: u16,
Ghost(leaves): Ghost<Seq<NodeItem>>,
)
requires
    shape_ok(num_leaf_nodes as nat, branching_factor as nat),
    level_bounds@ == spec_level_bounds(num_leaf_nodes as nat, branching_factor as nat),
    old(node_items)@.len() == total_nodes(num_leaf_nodes as nat, branching_factor as nat),
    leaves.len() == num_leaf_nodes,
    forall|i: int|
        0 <= i < leaves.len() ==> #[trigger] old(node_items)@[leaf_start(
            leaves.len(),
            branching_factor as nat,
        ) + i] == leaves[i],
ensures
    well_built(final(node_items)@, leaves, branching_factor as nat),
{
    let ghost n = num_leaf_nodes as nat;
    let ghost b = branching_factor as nat;
    let ghost sizes = level_sizes(n, b);
    proof {
        lemma_level_sizes(n, b);
        lemma_level_positions(n, b);
    }
    let bf = branching_factor as usize;
    let num_levels = level_bounds.len();
    let mut level: usize = 0;
    while level < num_levels - 1
        invariant
            n == num_leaf_nodes,
            b == branching_factor,
            bf == b,
            sizes == level_sizes(n, b),
            shape_ok(n, b),
            num_levels == sizes.len(),
            level_bounds@ == spec_level_bounds(n, b),
            node_items@.len() == total_nodes(n, b),
            leaves.len() == n,
            level < num_levels,
            forall|i: int|
                0 <= i < n ==> #[trigger] node_items@[leaf_start(n, b) + i] == leaves[i],
            forall|l: int, p: int|
                1 <= l <= level && 0 <= p < sizes[l] ==> #[trigger] node_items@[level_start(
                    n,
                    b,
                    l,
                ) + p] == parent_of(node_items@, n, b, l - 1, p),
        decreases num_levels - level,
    {
        proof {
            lemma_level_sizes(n, b);
            lemma_level_positions(n, b);
            lemma_groups(sizes[level as int], b);
        }
        let children_start = level_bounds[level].start;
        let children_end = level_bounds[level].end;
        let parent_start = level_bounds[level + 1].start;
        let ghost c = level as int;
        let ghost csize = sizes[c];
        let ghost psize = sizes[c + 1];
        let ghost before = node_items@;
        assert(children_end == level_start(n, b, c) + csize);
        assert(psize == ceil_div(csize, b));
        let mut parent_idx = parent_start;
        let mut child_idx = children_start;
        let ghost mut p: int = 0;
        while child_idx < children_end
            invariant
                n == num_leaf_nodes,
                b == branching_factor,
                bf == b,
                b >= 2,
                sizes == level_sizes(n, b),
                c == level,
                c + 1 < sizes.len(),
                csize == sizes[c],
                psize == sizes[c + 1],
                csize >= 1,
                (psize - 1) * b < csize,
                csize <= psize * b,
                children_start == level_start(n, b, c),
                children_end == level_start(n, b, c) + csize,
                parent_start == level_start(n, b, c + 1),
                level_start(n, b, c + 1) + psize == level_start(n, b, c),
                children_end <= total_nodes(n, b),
                node_items@.len() == total_nodes(n, b),
                0 <= p <= psize,
                parent_idx == parent_start + p,
                child_idx == children_start + min_int(p * b, csize as int),
                p < psize ==> p * b < csize,
                p == psize ==> child_idx == children_end,
                node_items@.subrange(
                    children_start as int,
                    total_nodes(n, b) as int,
                ) == before.subrange(children_start as int, total_nodes(n, b) as int),
                forall|q: int|
                    0 <= q < parent_start ==> #[trigger] node_items@[q] == before[q],
                forall|q: int|
                    0 <= q < p ==> #[trigger] node_items@[parent_start + q] == parent_of(
                        node_items@,
                        n,
                        b,
                        c,
                        q,
                    ),
            decreases psize - p,
        {
            assert(p < psize) by {
                if p == psize {
                }
            }
            let ghost first = child_idx as int;
            assert(first == group_start(n, b, c, p));
            let mut parent_node = NodeItem::create(child_idx as u64);
            let mut j: u16 = 0;
            assert(node_items@.subrange(first, child_idx as int) =~= Seq::<
                NodeItem,
            >::empty());
            while j < branching_factor
                invariant
                    b == branching_factor,
                    first == group_start(n, b, c, p),
                    0 <= first <= child_idx <= children_end,
                    child_idx == first + j,
                    children_end <= node_items@.len(),
                    j <= b,
                    parent_node == expand_all(
                        spec_create(first as u64),
                        node_items@.subrange(first, child_idx as int),
                    ),
                ensures
                    child_idx == min_int(first + b, children_end as int),
                    parent_node == expand_all(
                        spec_create(first as u64),
                        node_items@.subrange(first, child_idx as int),
                    ),
                decreases b - j,
            {
                if child_idx >= children_end {
                    break ;
                }
                assert(node_items@.subrange(first, child_idx + 1).drop_last()
                    =~= node_items@.subrange(first, child_idx as int));
                parent_node.expand(&node_items[child_idx]);
                child_idx = child_idx + 1;
                j = j + 1;
            }
            assert(child_idx == group_end(n, b, c, p)) by (nonlinear_arith)
                requires
                    child_idx == min_int(first + b, children_end as int),
                    first == level_start(n, b, c) + p * b,
                    children_end == level_start(n, b, c) + csize,
                    group_end(n, b, c, p) == level_start(n, b, c) + min_int(
                        (p + 1) * b,
                        csize as int,
                    ),
            ;
            let ghost mid = node_items@;
            node_items.set(parent_idx, parent_node);
            proof {
                assert(node_items@.subrange(children_start as int, total_nodes(n, b) as int)
                    =~= mid.subrange(children_start as int, total_nodes(n, b) as int));
                assert(node_items@.subrange(first, child_idx as int) =~= mid.subrange(
                    first,
                    child_idx as int,
                ));
                assert forall|q: int| 0 <= q <= p implies #[trigger] node_items@[parent_start
                    + q] == parent_of(node_items@, n, b, c, q) by {
                    lemma_group_bounds(n, b, c, q);
                    lemma_parent_of_stable(mid, node_items@, n, b, c, q, children_start as int);
                }
            }
            parent_idx = parent_idx + 1;
            proof {
                p = p + 1;
                assert(p < psize ==> p * b < csize) by (nonlinear_arith)
                    requires
                        (psize - 1) * b < csize,
                        p <= psize,
                ;
                assert(child_idx == children_start + min_int(p * b, csize as int))
                    by (nonlinear_arith)
                    requires
                        child_idx == level_start(n, b, c) + min_int((p - 1 + 1) * b, csize as int),
                        children_start == level_start(n, b, c),
                ;
            }
        }
        assert(p == psize) by (nonlinear_arith)
            requires
                child_idx >= children_end,
                child_idx == children_start + min_int(p * b, csize as int),
                children_end == children_start + csize,
                p <= psize,
                p < psize ==> p * b < csize,
        ;
        proof {
            let now = node_items@;
            assert forall|i: int| 0 <= i < n implies #[trigger] now[leaf_start(n, b) + i]
                == leaves[i] by {
                assert(leaf_start(n, b) >= children_start);
                assert(now[leaf_start(n, b) + i] == now.subrange(
                    children_start as int,
                    total_nodes(n, b) as int,
                )[leaf_start(n, b) + i - children_start]);
            }
            assert forall|l: int, q: int|
                1 <= l <= level + 1 && 0 <= q < sizes[l] implies #[trigger] now[level_start(
                    n,
                    b,
                    l,
                ) + q] == parent_of(now, n, b, l - 1, q) by {
                if l <= level {
                    lemma_level_positions(n, b);
                    assert(level_start(n, b, level as int) <= level_start(n, b, l));
                    assert(level_start(n, b, level as int) <= level_start(n, b, l - 1));
                    assert(level_end(n, b, l) <= total_nodes(n, b));
                    assert(now[level_start(n, b, l) + q] == now.subrange(
                        children_start as int,
                        total_nodes(n, b) as int,
                    )[level_start(n, b, l) + q - children_start]);
                    assert(before[level_start(n, b, l) + q] == before.subrange(
                        children_start as int,
                        total_nodes(n, b) as int,
                    )[level_start(n, b, l) + q - children_start]);
                    lemma_group_bounds(n, b, l - 1, q);
                    assert(level_end(n, b, l - 1) <= total_nodes(n, b));
                    lemma_parent_of_stable(before, now, n, b, l - 1, q, children_start as int);
                }
            }
        }
        level = level + 1;
    }
}


/// A parent is unchanged where the nodes from `from` on are.
proof fn lemma_parent_of_stable(
    s: Seq<NodeItem>,
    t: Seq<NodeItem>,
    n: nat,
    b: nat,
    c: int,
    p: int,
    from: int,
)
    requires
        0 <= from <= group_start(n, b, c, p) <= group_end(n, b, c, p) <= s.len(),
        s.len() == t.len(),
        s.subrange(from, s.len() as int) == t.subrange(from, t.len() as int),
    ensures
        parent_of(s, n, b, c, p) == parent_of(t, n, b, c, p),
{
    let gs = group_start(n, b, c, p);
    let ge = group_end(n, b, c, p);
    assert forall|i: int| 0 <= i < ge - gs implies s.subrange(gs, ge)[i] == t.subrange(gs, ge)[i] by {
        assert(s[gs + i] == s.subrange(from, s.len() as int)[gs + i - from]);
        assert(t[gs + i] == t.subrange(from, t.len() as int)[gs + i - from]);
    }
    assert(s.subrange(gs, ge) =~= t.subrange(gs, ge));
}

/// The `p`-th group of children lies inside its level and is not empty.
proof fn lemma_group_bounds(n: nat, b: nat, c: int, p: int)
    requires
        n >= 1,
        b >= 2,
        0 <= c < level_sizes(n, b).len() - 1,
        0 <= p < level_sizes(n, b)[c + 1],
    ensures
        level_start(n, b, c) <= group_start(n, b, c, p) < group_end(n, b, c, p) <= level_end(
            n,
            b,
            c,
        ),
{
    lemma_level_sizes(n, b);
    let csize = level_sizes(n, b)[c];
    let psize = level_sizes(n, b)[c + 1];
    lemma_groups(csize, b);
    assert(0 <= p * b < csize && p * b < min_int((p + 1) * b, csize as int) <= csize)
        by (nonlinear_arith)
        requires
            0 <= p < psize,
            (psize - 1) * b < csize,
            b >= 2,
    ;
}

} // verus!
