//! Searching an index that is read piece by piece.
//!
//! A [`StreamSearch`] holds the state of a search whose nodes are not in
//! memory.  It asks for the nodes of one visit at a time
//! ([`StreamSearch::next_request`]), is handed their bytes
//! ([`StreamSearch::feed`]), and in the end gives the leaves found.  The
//! caller does the reading; the search decides what to read and what to
//! report, exactly as a search of the whole index in memory would.

use crate::error::Error;
use crate::levels::{
    generate_level_bounds, lemma_level_positions, lemma_level_sizes, lemma_levels_fewer_than_nodes,
    level_end, level_sizes, shape_ok, spec_level_bounds, total_nodes, index_fits,
};
use crate::node::{
    consistent_with, lemma_nodes_bytes_roundtrip_then, nodes_bytes, lemma_node_from_bytes_slice, node_from_bytes, nodes_from_bytes, NodeItem,
    NODE_ITEM_SIZE,
};
use crate::tree::{well_built, PackedRTree};
use crate::search_law::{lemma_search_built_tree, matching_leaves, query_exact_on};
use crate::search::{
    entry_end, frontier, frontier_hits, frontier_pushes, hits_upto,     lemma_frontier_pushes_grow, lemma_range_pushes_grow, node_matches, range_hits, range_pushes,
    spec_search, top_level, Query, SearchResultItem,
};
use crate::tree::leaf_start;
use vstd::prelude::*;

verus! {

/// The state of a search over an index that is read piece by piece.
pub struct StreamSearch {
    level_bounds: Vec<core::ops::Range<usize>>,
    num_items: usize,
    node_size: u16,
    query: Query,
    leaf_nodes_offset: usize,
    current: Vec<(usize, usize)>,
    k: usize,
    next: Vec<(usize, usize)>,
    level: usize,
    results: Vec<SearchResultItem>,
}

impl StreamSearch {
    /// The leaf count of the searched tree.
    pub closed spec fn spec_num_items(self) -> nat {
        self.num_items as nat
    }

    /// The branching factor of the searched tree.
    pub closed spec fn spec_node_size(self) -> nat {
        self.node_size as nat
    }

    /// The query.
    pub closed spec fn spec_query(self) -> Query {
        self.query
    }

    /// The state is one that a search can be in.
    pub closed spec fn wf(self) -> bool {
        let n = self.num_items as nat;
        let b = self.node_size as nat;
        &&& shape_ok(n, b)
        &&& self.level_bounds@ == spec_level_bounds(n, b)
        &&& self.leaf_nodes_offset == leaf_start(n, b)
        &&& self.level <= top_level(n, b)
        &&& self.k <= self.current@.len()
        &&& forall|i: int|
            0 <= i < self.current@.len() ==> #[trigger] self.current@[i].1 == self.level
        &&& self.level == 0 ==> self.next@.len() == 0
        &&& forall|i: int|
            0 <= i < self.next@.len() ==> #[trigger] self.next@[i].1 == self.level - 1
    }

    /// The state is the one that searching `nodes` reaches: the rounds
    /// before the current one are done, and so are the first `k` visits of
    /// the current round.
    pub closed spec fn agrees(self, nodes: Seq<NodeItem>) -> bool {
        let n = self.num_items as nat;
        let b = self.node_size as nat;
        let q = self.query;
        let j = (top_level(n, b) - self.level) as nat;
        &&& nodes.len() == total_nodes(n, b)
        &&& self.current@ == frontier(nodes, n, b, q, j)
        &&& self.results@ == hits_upto(nodes, n, b, q, j) + frontier_hits(
            nodes,
            n,
            b,
            q,
            self.current@.take(self.k as int),
        )
        &&& self.next@ == frontier_pushes(nodes, n, b, q, self.current@.take(self.k as int))
    }

    /// A visit is waiting for its nodes.
    pub closed spec fn ready(self) -> bool {
        &&& self.k < self.current@.len()
        &&& entry_end(self.num_items as nat, self.node_size as nat, self.current@[self.k as int])
            > self.current@[self.k as int].0
    }

    /// The first node of the waiting visit.
    pub closed spec fn request_start(self) -> usize {
        self.current@[self.k as int].0
    }

    /// The number of nodes of the waiting visit.
    pub closed spec fn request_len(self) -> usize {
        (entry_end(self.num_items as nat, self.node_size as nat, self.current@[self.k as int])
            - self.current@[self.k as int].0) as usize
    }

    /// Every round is done.
    pub closed spec fn finished(self) -> bool {
        &&& self.level == 0
        &&& self.k == self.current@.len()
    }

    /// The rounds still to start.
    pub closed spec fn rounds_left(self) -> nat {
        self.level as nat
    }

    /// The visits of the current round still to make.
    pub closed spec fn visits_left(self) -> nat {
        (self.current@.len() - self.k) as nat
    }

    /// The leaves found so far.
    pub closed spec fn found(self) -> Seq<SearchResultItem> {
        self.results@
    }

    /// Starts a search of a tree with `num_items` leaves and branching
    /// factor `node_size`.
    pub fn new(num_items: usize, node_size: u16, query: Query) -> (r: StreamSearch)
        requires
            shape_ok(num_items as nat, node_size as nat),
        ensures
            r.wf(),
            r.spec_num_items() == num_items,
            r.spec_node_size() == node_size,
            r.spec_query() == query,
            forall|nodes: Seq<NodeItem>|
                nodes.len() == total_nodes(num_items as nat, node_size as nat) ==> #[trigger] r.agrees(
                    nodes,
                ),
    {
        let ghost n = num_items as nat;
        let ghost b = node_size as nat;
        let level_bounds = generate_level_bounds(num_items, node_size);
        proof {
            lemma_level_sizes(n, b);
            lemma_level_positions(n, b);
        }
        let top = level_bounds.len() - 1;
        let leaf_nodes_offset = level_bounds[0].start;
        let mut current: Vec<(usize, usize)> = Vec::new();
        current.push((0, top));
        let r = StreamSearch {
            level_bounds,
            num_items,
            node_size,
            query,
            leaf_nodes_offset,
            current,
            k: 0,
            next: Vec::new(),
            level: top,
            results: Vec::new(),
        };
        assert forall|nodes: Seq<NodeItem>|
            nodes.len() == total_nodes(n, b) implies #[trigger] r.agrees(nodes) by {
            assert(r.current@ =~= frontier(nodes, n, b, query, 0));
            assert(r.current@.take(0) =~= Seq::<(usize, usize)>::empty());
            assert(r.results@ =~= hits_upto(nodes, n, b, query, 0) + frontier_hits(
                nodes,
                n,
                b,
                query,
                r.current@.take(0),
            ));
            assert(r.next@ =~= frontier_pushes(nodes, n, b, query, r.current@.take(0)));
        }
        r
    }

    /// Moves on to the next visit that needs nodes, and returns the first
    /// node and the number of nodes it needs; `None` when the search is
    /// done.
    pub fn next_request(&mut self) -> (r: Option<(usize, usize)>)
        requires
            old(self).wf(),
        ensures
            final(self).wf(),
            final(self).spec_num_items() == old(self).spec_num_items(),
            final(self).spec_node_size() == old(self).spec_node_size(),
            final(self).spec_query() == old(self).spec_query(),
            final(self).rounds_left() < old(self).rounds_left() || (final(self).rounds_left()
                == old(self).rounds_left() && final(self).visits_left() <= old(
                self,
            ).visits_left()),
            forall|nodes: Seq<NodeItem>| #[trigger]
                old(self).agrees(nodes) ==> final(self).agrees(nodes),
            match r {
                Some((start, len)) => {
                    &&& final(self).ready()
                    &&& start == final(self).request_start()
                    &&& len == final(self).request_len()
                    &&& start + len <= total_nodes(
                        final(self).spec_num_items(),
                        final(self).spec_node_size(),
                    )
                },
                None => final(self).finished(),
            },
    {
        let ghost n = self.num_items as nat;
        let ghost b = self.node_size as nat;
        let ghost q = self.query;
        proof {
            lemma_level_sizes(n, b);
            lemma_level_positions(n, b);
            lemma_levels_fewer_than_nodes(n, b);
        }
        let bf = self.node_size as usize;
        loop
            invariant
                self.wf(),
                n == self.num_items,
                b == self.node_size,
                q == self.query,
                bf == b,
                self.num_items == old(self).num_items,
                self.node_size == old(self).node_size,
                self.query == old(self).query,
                forall|kk: int|
                    0 <= kk < level_sizes(n, b).len() ==> #[trigger] level_end(n, b, kk)
                        <= total_nodes(n, b),
                top_level(n, b) < usize::MAX,
                forall|nodes: Seq<NodeItem>| #[trigger]
                    old(self).agrees(nodes) ==> self.agrees(nodes),
                self.rounds_left() < old(self).rounds_left() || (self.rounds_left() == old(
                    self,
                ).rounds_left() && self.visits_left() <= old(self).visits_left()),
            decreases self.level, self.current@.len() - self.k,
        {
            if self.k < self.current.len() {
                let (node_index, lvl) = self.current[self.k];
                assert(lvl == self.level);
                let candidate = if node_index > usize::MAX - bf {
                    usize::MAX
                } else {
                    node_index + bf
                };
                let level_end_pos = self.level_bounds[lvl].end;
                assert(self.level_bounds@[lvl as int] == spec_level_bounds(n, b)[lvl as int]);
                let end = if candidate < level_end_pos {
                    candidate
                } else {
                    level_end_pos
                };
                assert(end == entry_end(n, b, self.current@[self.k as int]));
                assert(level_end(n, b, lvl as int) <= total_nodes(n, b));
                if end > node_index {
                    return Some((node_index, end - node_index));
                }
                let ghost before = *self;
                self.k = self.k + 1;
                proof {
                    assert forall|nodes: Seq<NodeItem>| #[trigger]
                        old(self).agrees(nodes) implies self.agrees(nodes) by {
                        assert(before.agrees(nodes));
                        let f = self.current@;
                        assert(f.take(self.k as int).drop_last() =~= f.take(before.k as int));
                        assert(f.take(self.k as int).last() == f[before.k as int]);
                        assert(range_hits(nodes, n, b, q, node_index as int, end as int) =~= Seq::<
                            SearchResultItem,
                        >::empty());
                        assert(range_pushes(nodes, n, b, q, node_index as int, end as int, lvl as int)
                            =~= Seq::<(usize, usize)>::empty());
                        assert(self.results@ =~= hits_upto(
                            nodes,
                            n,
                            b,
                            q,
                            (top_level(n, b) - self.level) as nat,
                        ) + frontier_hits(nodes, n, b, q, f.take(self.k as int)));
                        assert(self.next@ =~= frontier_pushes(nodes, n, b, q, f.take(self.k as int)));
                    }
                }
            } else {
                if self.level == 0 {
                    return None;
                }
                let ghost before = *self;
                let mut fresh: Vec<(usize, usize)> = Vec::new();
                std::mem::swap(&mut fresh, &mut self.next);
                self.current = fresh;
                self.k = 0;
                self.level = self.level - 1;
                proof {
                    assert forall|nodes: Seq<NodeItem>| #[trigger]
                        old(self).agrees(nodes) implies self.agrees(nodes) by {
                        assert(before.agrees(nodes));
                        let j = (top_level(n, b) - before.level) as nat;
                        assert(before.current@.take(before.k as int) =~= before.current@);
                        assert((top_level(n, b) - self.level) as nat == j + 1);
                        assert(self.current@.take(0) =~= Seq::<(usize, usize)>::empty());
                        assert(self.results@ =~= hits_upto(nodes, n, b, q, j + 1) + frontier_hits(
                            nodes,
                            n,
                            b,
                            q,
                            self.current@.take(0),
                        ));
                        assert(self.next@ =~= frontier_pushes(nodes, n, b, q, self.current@.take(0)));
                    }
                }
            }
        }
    }

    /// Hands the search the bytes of the nodes it asked for: `len` records
    /// of 40 bytes from the first node on.  Reports the matching leaves
    /// among them and notes the children to visit next.  Fails with
    /// `UnexpectedEof` when fewer bytes are given, and with `CorruptIndex`
    /// when a matching node read on the leaf level is stored before the
    /// leaves.
    pub fn feed(&mut self, bytes: &[u8]) -> (r: Result<(), Error>)
        requires
            old(self).wf(),
            old(self).ready(),
        ensures
            final(self).spec_num_items() == old(self).spec_num_items(),
            final(self).spec_node_size() == old(self).spec_node_size(),
            final(self).spec_query() == old(self).spec_query(),
            bytes@.len() < old(self).request_len() * 40 <==> r == Err::<(), Error>(
                Error::UnexpectedEof,
            ),
            r is Ok ==> final(self).wf(),
            r is Ok ==> final(self).rounds_left() == old(self).rounds_left()
                && final(self).visits_left() < old(self).visits_left(),
            forall|nodes: Seq<NodeItem>|
                #![trigger old(self).agrees(nodes)]
                #![trigger final(self).agrees(nodes)]
                old(self).agrees(nodes) && nodes.subrange(
                    old(self).request_start() as int,
                    old(self).request_start() + old(self).request_len(),
                ) == nodes_from_bytes(bytes@, old(self).request_len() as nat) ==> {
                    &&& r is Ok ==> final(self).agrees(nodes)
                    &&& r == Err::<(), Error>(Error::CorruptIndex) ==> spec_search(
                        nodes,
                        old(self).spec_num_items(),
                        old(self).spec_node_size(),
                        old(self).spec_query(),
                    ) is None
                },
    {
        let ghost n = self.num_items as nat;
        let ghost b = self.node_size as nat;
        let ghost q = self.query;
        let ghost start = self.request_start();
        let ghost len = self.request_len();
        let ghost old_self = *self;
        proof {
            lemma_level_sizes(n, b);
            lemma_level_positions(n, b);
        }
        let (node_index, lvl) = self.current[self.k];
        let bf = self.node_size as usize;
        let candidate = if node_index > usize::MAX - bf {
            usize::MAX
        } else {
            node_index + bf
        };
        let level_end_pos = self.level_bounds[lvl].end;
        assert(self.level_bounds@[lvl as int] == spec_level_bounds(n, b)[lvl as int]);
        assert(level_end(n, b, lvl as int) <= total_nodes(n, b));
        let end = if candidate < level_end_pos {
            candidate
        } else {
            level_end_pos
        };
        assert(end == entry_end(n, b, self.current@[self.k as int]));
        let length = end - node_index;
        assert(length == len);
        if bytes.len() / NODE_ITEM_SIZE < length {
            assert(bytes@.len() < len * 40) by (nonlinear_arith)
                requires
                    bytes@.len() / 40 < len,
            ;
            return Err(Error::UnexpectedEof);
        }
        assert(length * 40 <= bytes@.len()) by (nonlinear_arith)
            requires
                bytes@.len() / 40 >= length,
        ;
        let ghost base_results = self.results@;
        let ghost base_next = self.next@;
        assert(start == node_index);
        assert(start + len == end);
        let mut pos = node_index;
        while pos < end
            invariant
                n == self.num_items,
                b == self.node_size,
                q == self.query,
                self.wf(),
                lvl == self.level,
                old_self == *old(self),
                start == old_self.request_start(),
                len == old_self.request_len(),
                start == node_index,
                start + len == end,
                self.k == old_self.k,
                self.current == old_self.current,
                self.level == old_self.level,
                self.num_items == old_self.num_items,
                self.node_size == old_self.node_size,
                self.query == old_self.query,
                self.level_bounds == old_self.level_bounds,
                self.leaf_nodes_offset == old_self.leaf_nodes_offset,
                self.k < self.current@.len(),
                self.current@[self.k as int] == (node_index, lvl),
                node_index <= pos <= end,
                end == node_index + length,
                end <= total_nodes(n, b),
                end == entry_end(n, b, self.current@[self.k as int]),
                length * 40 <= bytes@.len(),
                bytes@.len() == bytes.len(),
                forall|nodes: Seq<NodeItem>|
                    nodes.subrange(node_index as int, end as int) == nodes_from_bytes(
                        bytes@,
                        length as nat,
                    ) && nodes.len() == total_nodes(n, b) ==> {
                        &&& #[trigger] old_self.agrees(nodes) ==> self.results@ == base_results
                            + range_hits(nodes, n, b, q, node_index as int, pos as int)
                        &&& old_self.agrees(nodes) ==> self.next@ == base_next + range_pushes(
                            nodes,
                            n,
                            b,
                            q,
                            node_index as int,
                            pos as int,
                            lvl as int,
                        )
                    },
                self.results@.len() >= base_results.len(),
                self.next@.len() >= base_next.len(),
                self.results@.subrange(0, base_results.len() as int) == base_results,
                self.next@.subrange(0, base_next.len() as int) == base_next,
            decreases end - pos,
        {
            let at = (pos - node_index) * NODE_ITEM_SIZE;
            let node_item = match NodeItem::from_bytes_at(bytes, at) {
                Ok(item) => item,
                Err(e) => {
                    return Err(e);
                },
            };
            assert(node_item == nodes_from_bytes(bytes@, length as nat)[pos - node_index]);
            let ghost prev_results = self.results@;
            let ghost prev_next = self.next@;
            if node_matches(&self.query, &node_item) {
                if pos >= self.leaf_nodes_offset {
                    self.results.push(
                        SearchResultItem {
                            offset: node_item.offset as usize,
                            index: pos - self.leaf_nodes_offset,
                        },
                    );
                } else {
                    if lvl == 0 {
                        proof {
                            assert forall|nodes: Seq<NodeItem>|
                                #![trigger old_self.agrees(nodes)]
                                old_self.agrees(nodes) && nodes.subrange(
                                    start as int,
                                    start + len,
                                ) == nodes_from_bytes(bytes@, len as nat) implies spec_search(
                                nodes,
                                n,
                                b,
                                q,
                            ) is None by {
                                let f = old_self.current@;
                                let j = top_level(n, b) as nat;
                                assert(nodes[pos as int] == nodes.subrange(
                                    node_index as int,
                                    end as int,
                                )[pos - node_index]);
                                lemma_range_pushes_grow(
                                    nodes,
                                    n,
                                    b,
                                    q,
                                    node_index as int,
                                    pos + 1,
                                    end as int,
                                    0,
                                );
                                assert(f.take(self.k + 1).drop_last() =~= f.take(self.k as int));
                                assert(f.take(self.k + 1).last() == f[self.k as int]);
                                assert(range_pushes(
                                    nodes,
                                    n,
                                    b,
                                    q,
                                    node_index as int,
                                    pos + 1,
                                    0,
                                ).len() > 0);
                                assert(frontier_pushes(nodes, n, b, q, f.take(self.k + 1)).len()
                                    > 0);
                                lemma_frontier_pushes_grow(nodes, n, b, q, f, self.k + 1);
                            }
                        }
                        return Err(Error::CorruptIndex);
                    }
                    self.next.push((node_item.offset as usize, lvl - 1));
                }
            }
            proof {
                assert forall|nodes: Seq<NodeItem>|
                    nodes.subrange(node_index as int, end as int) == nodes_from_bytes(
                        bytes@,
                        length as nat,
                    ) && nodes.len() == total_nodes(n, b) implies {
                    &&& #[trigger] old_self.agrees(nodes) ==> self.results@ == base_results
                        + range_hits(nodes, n, b, q, node_index as int, pos + 1)
                    &&& old_self.agrees(nodes) ==> self.next@ == base_next + range_pushes(
                        nodes,
                        n,
                        b,
                        q,
                        node_index as int,
                        pos + 1,
                        lvl as int,
                    )
                } by {
                    assert(nodes[pos as int] == nodes.subrange(node_index as int, end as int)[pos
                        - node_index]);
                    if old_self.agrees(nodes) {
                        assert(self.results@ =~= base_results + range_hits(
                            nodes,
                            n,
                            b,
                            q,
                            node_index as int,
                            pos + 1,
                        ));
                        assert(self.next@ =~= base_next + range_pushes(
                            nodes,
                            n,
                            b,
                            q,
                            node_index as int,
                            pos + 1,
                            lvl as int,
                        ));
                    }
                }
                assert(self.results@.subrange(0, base_results.len() as int) =~= base_results);
                assert(self.next@.subrange(0, base_next.len() as int) =~= base_next);
            }
            pos = pos + 1;
        }
        assert(self.current.len() == self.current@.len());
        self.k = self.k + 1;
        proof {
            assert forall|nodes: Seq<NodeItem>|
                #![trigger old_self.agrees(nodes)]
                old_self.agrees(nodes) && nodes.subrange(start as int, start + len)
                    == nodes_from_bytes(bytes@, len as nat) implies self.agrees(nodes) by {
                let f = old_self.current@;
                let j = (top_level(n, b) - self.level) as nat;
                assert(f.take(self.k as int).drop_last() =~= f.take(old_self.k as int));
                assert(f.take(self.k as int).last() == f[old_self.k as int]);
                assert(nodes.subrange(node_index as int, end as int) == nodes_from_bytes(
                    bytes@,
                    length as nat,
                ));
                assert(self.results@ == base_results + range_hits(
                    nodes,
                    n,
                    b,
                    q,
                    node_index as int,
                    end as int,
                ));
                assert(self.results@ =~= hits_upto(nodes, n, b, q, j) + frontier_hits(
                    nodes,
                    n,
                    b,
                    q,
                    f.take(self.k as int),
                ));
                assert(self.next@ =~= frontier_pushes(nodes, n, b, q, f.take(self.k as int)));
            }
        }
        Ok(())
    }

    /// The leaves found; once the search is done, all of them.
    pub fn into_results(self) -> (r: Vec<SearchResultItem>)
        ensures
            r@ == self.found(),
    {
        self.results
    }

    /// When the search is done, it has found what a search of the whole
    /// index finds.
    pub proof fn lemma_finished(self, nodes: Seq<NodeItem>)
        requires
            self.wf(),
            self.finished(),
            self.agrees(nodes),
        ensures
            spec_search(nodes, self.spec_num_items(), self.spec_node_size(), self.spec_query())
                == Some(self.found()),
    {
        let n = self.num_items as nat;
        let b = self.node_size as nat;
        let q = self.query;
        let top = top_level(n, b);
        assert(self.current@.take(self.k as int) =~= self.current@);
    }

}

/// The records of a chunk of the data are the nodes at the chunk's place.
proof fn lemma_consistent_chunk(nodes: Seq<NodeItem>, data: Seq<u8>, count: nat, start: int, len: int)
    requires
        consistent_with(nodes, data, count),
        0 <= start,
        0 <= len,
        start + len <= count,
        (start + len) * 40 <= data.len(),
    ensures
        nodes.subrange(start, start + len) == nodes_from_bytes(
            data.subrange(start * 40, (start + len) * 40),
            len as nat,
        ),
{
    let chunk = data.subrange(start * 40, (start + len) * 40);
    assert forall|i: int| 0 <= i < len implies #[trigger] nodes.subrange(start, start + len)[i]
        == nodes_from_bytes(chunk, len as nat)[i] by {
        lemma_node_from_bytes_slice(data, start * 40, (start + len) * 40, i * 40);
        assert(nodes[start + i] == node_from_bytes(data, (start + i) * 40));
    }
    assert(nodes.subrange(start, start + len) =~= nodes_from_bytes(chunk, len as nat));
}

/// Every visit that a search of `nodes` makes, in every round, reads only
/// nodes among the first `count`.
pub open spec fn reads_within(nodes: Seq<NodeItem>, n: nat, b: nat, q: Query, count: nat) -> bool {
    forall|j: nat, i: int|
        j <= top_level(n, b) && 0 <= i < frontier(nodes, n, b, q, j).len() ==> {
            let e = #[trigger] frontier(nodes, n, b, q, j)[i];
            entry_end(n, b, e) <= e.0 || entry_end(n, b, e) <= count
        }
}

/// Searching the bytes written for the nodes of a tree, whatever follows
/// them, finds what searching the nodes themselves finds.
pub proof fn lemma_search_written_index(nodes: Seq<NodeItem>, n: nat, b: nat, q: Query, rest: Seq<u8>)
    requires
        nodes.len() == total_nodes(n, b),
    ensures
        (nodes_bytes(nodes) + rest).len() >= total_nodes(n, b) * 40,
        spec_search(nodes_from_bytes(nodes_bytes(nodes) + rest, total_nodes(n, b)), n, b, q)
            == spec_search(nodes, n, b, q),
{
    lemma_nodes_bytes_roundtrip_then(nodes, rest);
}

/// Searching the bytes written for a tree built over `leaves`, whatever
/// follows them, finds exactly the matching leaves, in order: what a
/// search of the tree in memory finds.  For a box query this holds when
/// no leaf coordinate is a NaN.
pub proof fn lemma_stream_search_built_tree(
    nodes: Seq<NodeItem>,
    leaves: Seq<NodeItem>,
    b: nat,
    q: Query,
    rest: Seq<u8>,
)
    requires
        well_built(nodes, leaves, b),
        shape_ok(leaves.len(), b),
        query_exact_on(q, leaves),
    ensures
        (nodes_bytes(nodes) + rest).len() >= total_nodes(leaves.len(), b) * 40,
        spec_search(nodes_from_bytes(nodes_bytes(nodes) + rest, total_nodes(leaves.len(), b)), leaves.len(), b, q)
            == spec_search(nodes, leaves.len(), b, q),
        spec_search(nodes, leaves.len(), b, q) == Some(matching_leaves(leaves, q, 0, leaves.len() as int)),
{
    lemma_search_written_index(nodes, leaves.len(), b, q, rest);
    lemma_search_built_tree(nodes, leaves, b, q);
}

impl PackedRTree {
    /// Searches the index stored at the start of `data`, for a tree with
    /// `num_items` leaves and branching factor `node_size`, reading only the
    /// nodes that the search visits.  Fails with `UnexpectedEof` only when a
    /// visit needs nodes beyond the end of `data`: when every visit reads
    /// within `data`, the result is that of the search of those nodes.
    #[verifier::rlimit(60)]
    pub fn stream_search(data: &[u8], num_items: usize, node_size: u16, query: Query) -> (r: Result<
        Vec<SearchResultItem>,
        Error,
    >)
        requires
            shape_ok(num_items as nat, node_size as nat),
            index_fits(num_items as nat, node_size as nat),
        ensures
            forall|nodes: Seq<NodeItem>|
                #[trigger] consistent_with(
                    nodes,
                    data@,
                    total_nodes(num_items as nat, node_size as nat),
                ) ==> match r {
                    Ok(v) => spec_search(nodes, num_items as nat, node_size as nat, query) == Some(
                        v@,
                    ),
                    Err(Error::CorruptIndex) => spec_search(
                        nodes,
                        num_items as nat,
                        node_size as nat,
                        query,
                    ) is None,
                    Err(Error::UnexpectedEof) => true,
                },
            forall|nodes: Seq<NodeItem>|
                consistent_with(nodes, data@, total_nodes(num_items as nat, node_size as nat))
                    && #[trigger] reads_within(
                    nodes,
                    num_items as nat,
                    node_size as nat,
                    query,
                    data@.len() / 40,
                ) ==> r != Err::<Vec<SearchResultItem>, Error>(Error::UnexpectedEof),
            data@.len() >= total_nodes(num_items as nat, node_size as nat) * 40 ==> ({
                let nodes = nodes_from_bytes(
                    data@,
                    total_nodes(num_items as nat, node_size as nat),
                );
                match r {
                    Ok(v) => spec_search(nodes, num_items as nat, node_size as nat, query) == Some(
                        v@,
                    ),
                    Err(e) => e == Error::CorruptIndex && spec_search(
                        nodes,
                        num_items as nat,
                        node_size as nat,
                        query,
                    ) is None,
                }
            }),
    {
        let ghost n = num_items as nat;
        let ghost b = node_size as nat;
        let ghost count = total_nodes(n, b);
        let mut search = StreamSearch::new(num_items, node_size, query);
        proof {
            if data@.len() >= count * 40 {
                let full = nodes_from_bytes(data@, count);
                assert(consistent_with(full, data@, count));
            }
        }
        loop
            invariant
                search.wf(),
                n == num_items,
                b == node_size,
                search.spec_num_items() == n,
                search.spec_node_size() == b,
                search.spec_query() == query,
                count == total_nodes(n, b),
                count * 40 <= usize::MAX,
                data@.len() == data.len(),
                forall|nodes: Seq<NodeItem>|
                    #[trigger] consistent_with(nodes, data@, count) ==> search.agrees(nodes),
            decreases search.rounds_left(), search.visits_left(),
        {
            let ghost at_head = search;
            let request = search.next_request();
            let ghost after_request = search;
            proof {
                assert forall|nodes: Seq<NodeItem>|
                    #[trigger] consistent_with(nodes, data@, count) implies after_request.agrees(
                    nodes,
                ) by {
                    assert(at_head.agrees(nodes));
                }
            }
            match request {
                None => {
                    proof {
                        assert forall|nodes: Seq<NodeItem>|
                            #[trigger] consistent_with(nodes, data@, count) implies spec_search(
                            nodes,
                            n,
                            b,
                            query,
                        ) == Some(search.found()) by {
                            search.lemma_finished(nodes);
                        }
                        if data@.len() >= count * 40 {
                            assert(consistent_with(nodes_from_bytes(data@, count), data@, count));
                        }
                    }
                    let out = search.into_results();
                    assert(forall|nodes: Seq<NodeItem>|
                        #[trigger] consistent_with(nodes, data@, count) ==> spec_search(
                            nodes,
                            num_items as nat,
                            node_size as nat,
                            query,
                        ) == Some(out@));
                    return Ok(out);
                },
                Some((start, len)) => {
                    if start > data.len() / NODE_ITEM_SIZE || len > data.len() / NODE_ITEM_SIZE
                        - start {
                        proof {
                            if data@.len() >= count * 40 {
                                let full = nodes_from_bytes(data@, count);
                                assert(consistent_with(full, data@, count));
                                assert(search.agrees(full));
                                assert(start + len <= count);
                                assert(false) by (nonlinear_arith)
                                    requires
                                        data@.len() >= count * 40,
                                        start + len <= count,
                                        start > data@.len() / 40 || len > data@.len() / 40 - start,
                                ;
                            }
                            assert forall|nodes: Seq<NodeItem>|
                                consistent_with(nodes, data@, count) && #[trigger] reads_within(
                                    nodes,
                                    n,
                                    b,
                                    query,
                                    data@.len() / 40,
                                ) implies false by {
                                assert(search.agrees(nodes));
                                let j = (top_level(n, b) - search.level) as nat;
                                let k = search.k as int;
                                assert(search.current@ == frontier(nodes, n, b, query, j));
                                let e = frontier(nodes, n, b, query, j)[k];
                                assert(e == search.current@[k]);
                                assert(entry_end(n, b, e) > e.0);
                            }
                        }
                        return Err(Error::UnexpectedEof);
                    }
                    assert((start + len) * 40 <= data@.len()) by (nonlinear_arith)
                        requires
                            start <= data@.len() / 40,
                            len <= data@.len() / 40 - start,
                    ;
                    let lo = start * NODE_ITEM_SIZE;
                    let hi = (start + len) * NODE_ITEM_SIZE;
                    let chunk = &data[lo..hi];
                    let ghost before = search;
                    let res = search.feed(chunk);
                    proof {
                        assert forall|nodes: Seq<NodeItem>|
                            #[trigger] consistent_with(nodes, data@, count) implies nodes.subrange(
                            start as int,
                            start + len,
                        ) == nodes_from_bytes(chunk@, len as nat) by {
                            lemma_consistent_chunk(nodes, data@, count, start as int, len as int);
                            assert(chunk@ == data@.subrange(lo as int, hi as int));
                        }
                    }
                    proof {
                        assert forall|nodes: Seq<NodeItem>|
                            #[trigger] consistent_with(nodes, data@, count) implies (res is Ok
                            ==> search.agrees(nodes)) && (res == Err::<(), Error>(
                            Error::CorruptIndex,
                        ) ==> spec_search(nodes, n, b, query) is None) by {
                            assert(before.agrees(nodes));
                        }
                    }
                    match res {
                        Ok(()) => {},
                        Err(e) => {
                            proof {
                                assert(chunk@.len() == len * 40) by (nonlinear_arith)
                                    requires
                                        chunk@.len() == hi - lo,
                                        lo == start * 40,
                                        hi == (start + len) * 40,
                                ;
                                assert(e != Error::UnexpectedEof);
                                if data@.len() >= count * 40 {
                                    assert(consistent_with(
                                        nodes_from_bytes(data@, count),
                                        data@,
                                        count,
                                    ));
                                }
                            }
                            return Err(e);
                        },
                    }
                },
            }
        }
    }
}

} // verus!
