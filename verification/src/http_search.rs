//! Searching an index over HTTP, one range request at a time.
//!
//! An [`HttpSearch`] decides which runs of nodes to fetch and what to make
//! of the nodes fetched; the caller does the fetching.  Runs are fetched in
//! the order they were planned.  The children of a matching inner node are
//! planned as one run, and a run is merged into the last planned run of the
//! same level when the bytes skipped in between would not exceed a
//! threshold.  A run of leaves takes one node more than the children, so
//! that the byte range of the last feature in it is known.

use crate::error::Error;
use crate::http::{HttpRange, HttpSearchResultItem};
use crate::levels::{
    generate_level_bounds, index_fits, lemma_level_positions, lemma_level_sizes,
    lemma_levels_fewer_than_nodes, level_end, level_sizes, shape_ok, spec_level_bounds,
    total_nodes,
};
use crate::node::{node_from_bytes, nodes_from_bytes, NodeItem, NODE_ITEM_SIZE};
use crate::search::{node_matches, query_matches, top_level, Query};
use crate::tree::min_int;
use vstd::prelude::*;

verus! {

/// A run of consecutive nodes on one level, `start..end`.
#[derive(Debug, Clone, Copy, PartialEq, Eq, Structural)]
pub struct NodeRange {
    pub level: usize,
    pub start: usize,
    pub end: usize,
}

/// What a search over HTTP is set up with.
#[derive(Debug, Clone, Copy)]
pub struct HttpSearchConfig {
    /// The number of leaves of the tree.
    pub num_items: usize,
    /// The branching factor of the tree.
    pub node_size: u16,
    /// The query.
    pub query: Query,
    /// Where the index starts in the file.
    pub index_begin: usize,
    /// Where the features start in the file.
    pub feature_begin: usize,
    /// The most bytes a merge of two runs may fetch in vain.
    pub combine_request_threshold: usize,
}

/// The runs still to fetch, and the feature ranges found so far.
pub ghost struct HttpProgress {
    pub pending: Seq<NodeRange>,
    pub found: Seq<HttpRange>,
}

/// `a + b`, wrapped around at the width of `usize`.
pub open spec fn wrap_add(a: usize, b: usize) -> usize {
    if a + b > usize::MAX {
        (a + b - usize::MAX - 1) as usize
    } else {
        (a + b) as usize
    }
}

/// The run of the children of the inner node `node`, on `child_level`:
/// from the node's offset on, `b` nodes and one more on the leaf level,
/// cut at the end of the level.
pub open spec fn child_range(c: HttpSearchConfig, node: NodeItem, child_level: nat) -> NodeRange {
    let n = c.num_items as nat;
    let b = c.node_size as nat;
    let extra: int = if child_level == 0 {
        1
    } else {
        0
    };
    NodeRange {
        level: child_level as usize,
        start: node.offset as usize,
        end: min_int(node.offset + b + extra, level_end(n, b, child_level as int) as int) as usize,
    }
}

/// The planned runs after planning `r`: appended, or merged into the last
/// run when that is on the same level and the gap between them is at most
/// the threshold in bytes (a run that starts inside the last one has no
/// gap).  A merge takes the end of `r`.
pub open spec fn enqueue(threshold: usize, pending: Seq<NodeRange>, r: NodeRange) -> Seq<NodeRange> {
    if pending.len() == 0 || pending.last().level != r.level {
        pending.push(r)
    } else if r.start >= pending.last().end && (r.start - pending.last().end) * 40 > threshold {
        pending.push(r)
    } else {
        pending.update(
            pending.len() - 1,
            NodeRange { level: pending.last().level, start: pending.last().start, end: r.end },
        )
    }
}

/// The byte range of the feature of the leaf at place `i` of a fetched
/// run: up to the feature of the next leaf of the run, or open when it is
/// the last one.  Positions wrap around at the width of `usize`.
pub open spec fn leaf_range(feature_begin: usize, items: Seq<NodeItem>, i: int) -> HttpRange {
    let start = wrap_add(feature_begin, items[i].offset as usize);
    if i + 1 < items.len() {
        HttpRange::Range(
            core::ops::Range {
                start,
                end: wrap_add(feature_begin, items[i + 1].offset as usize),
            },
        )
    } else {
        HttpRange::RangeFrom(start)
    }
}

/// The progress after looking at the node at place `i` of a run fetched
/// on `level`: a matching leaf adds its byte range, a matching inner node
/// plans the run of its children.
pub open spec fn visit_item(
    c: HttpSearchConfig,
    level: nat,
    items: Seq<NodeItem>,
    i: int,
    s: HttpProgress,
) -> HttpProgress {
    if !query_matches(c.query, items[i]) {
        s
    } else if level == 0 {
        HttpProgress { pending: s.pending, found: s.found.push(leaf_range(c.feature_begin, items, i)) }
    } else {
        HttpProgress {
            pending: enqueue(
                c.combine_request_threshold,
                s.pending,
                child_range(c, items[i], (level - 1) as nat),
            ),
            found: s.found,
        }
    }
}

/// The progress after looking at the first `k` nodes of a run fetched on
/// `level`, in order.
pub open spec fn visit_items(
    c: HttpSearchConfig,
    level: nat,
    items: Seq<NodeItem>,
    k: nat,
    s: HttpProgress,
) -> HttpProgress
    decreases k,
{
    if k == 0 {
        s
    } else {
        visit_item(c, level, items, k - 1, visit_items(c, level, items, (k - 1) as nat, s))
    }
}

/// The planned runs without the empty runs at their head.
pub open spec fn drop_empty(pending: Seq<NodeRange>) -> Seq<NodeRange>
    decreases pending.len(),
{
    if pending.len() > 0 && pending[0].end <= pending[0].start {
        drop_empty(pending.drop_first())
    } else {
        pending
    }
}

/// The configuration is one a search can start from: a tree of the given
/// shape whose index and features fit in the address space.
pub open spec fn config_ok(c: HttpSearchConfig) -> bool {
    let n = c.num_items as nat;
    let b = c.node_size as nat;
    n > 0 ==> {
        &&& shape_ok(n, b)
        &&& index_fits(n, b)
        &&& c.index_begin + total_nodes(n, b) * 40 <= c.feature_begin
    }
}

/// A run lies on a level of the tree and ends within it.
pub open spec fn range_ok(c: HttpSearchConfig, r: NodeRange) -> bool {
    let n = c.num_items as nat;
    let b = c.node_size as nat;
    &&& r.level <= top_level(n, b)
    &&& r.end <= level_end(n, b, r.level as int)
}

/// The state of a search of an index over HTTP.
pub struct HttpSearch {
    config: HttpSearchConfig,
    level_bounds: Vec<core::ops::Range<usize>>,
    queue: Vec<NodeRange>,
    head: usize,
    current: Option<NodeRange>,
    results: Vec<HttpSearchResultItem>,
}

/// The node items that `bytes` holds, 40 bytes each.
fn decode_items(bytes: &[u8]) -> (r: Vec<NodeItem>)
    requires
        bytes@.len() % 40 == 0,
    ensures
        r@ == nodes_from_bytes(bytes@, bytes@.len() / 40),
{
    let count = bytes.len() / NODE_ITEM_SIZE;
    let mut items: Vec<NodeItem> = Vec::with_capacity(count);
    let mut i: usize = 0;
    while i < count
        invariant
            count == bytes@.len() / 40,
            bytes@.len() % 40 == 0,
            i <= count,
            items@ == nodes_from_bytes(bytes@, count as nat).take(i as int),
        decreases count - i,
    {
        assert(i * 40 + 40 <= bytes@.len()) by (nonlinear_arith)
            requires
                i < count,
                count == bytes@.len() / 40,
        ;
        assert(bytes@.len() == bytes.len());
        let item = match NodeItem::from_bytes_at(bytes, i * NODE_ITEM_SIZE) {
            Ok(item) => item,
            Err(_) => {
                assert(false);
                return items;
            },
        };
        items.push(item);
        assert(items@ =~= nodes_from_bytes(bytes@, count as nat).take(i + 1));
        i = i + 1;
    }
    assert(items@ =~= nodes_from_bytes(bytes@, count as nat));
    items
}

impl HttpSearch {
    /// What the search was set up with.
    pub closed spec fn config(self) -> HttpSearchConfig {
        self.config
    }

    /// The runs still to fetch and the feature ranges found.
    pub closed spec fn progress(self) -> HttpProgress {
        HttpProgress {
            pending: self.queue@.skip(self.head as int),
            found: self.results@.map_values(|r: HttpSearchResultItem| r.range),
        }
    }

    /// The run whose nodes are awaited.
    pub closed spec fn awaited(self) -> Option<NodeRange> {
        self.current
    }

    /// The state is one that a search can be in.
    pub closed spec fn wf(self) -> bool {
        let c = self.config;
        let n = c.num_items as nat;
        let b = c.node_size as nat;
        &&& config_ok(c)
        &&& n > 0 ==> self.level_bounds@ == spec_level_bounds(n, b)
        &&& n == 0 ==> self.queue@.len() == self.head && self.current is None
        &&& self.head <= self.queue@.len()
        &&& forall|i: int|
            self.head <= i < self.queue@.len() ==> range_ok(c, #[trigger] self.queue@[i])
        &&& self.current matches Some(r) ==> range_ok(c, r) && r.start < r.end
    }

    /// Starts a search of the tree with `num_items` leaves and branching
    /// factor `branching_factor` whose index starts at `index_begin` and
    /// is followed, after `attr_index_size` bytes, by the features.  The
    /// root is the one run to fetch first; with no leaves there is none.
    pub fn new(
        index_begin: usize,
        attr_index_size: usize,
        num_items: usize,
        branching_factor: u16,
        query: Query,
        combine_request_threshold: usize,
    ) -> (r: HttpSearch)
        requires
            num_items > 0 ==> {
                &&& shape_ok(num_items as nat, branching_factor as nat)
                &&& index_fits(num_items as nat, branching_factor as nat)
                &&& index_begin + attr_index_size + total_nodes(
                    num_items as nat,
                    branching_factor as nat,
                ) * 40 <= usize::MAX
            },
        ensures
            r.wf(),
            r.config().num_items == num_items,
            r.config().node_size == branching_factor,
            r.config().query == query,
            r.config().index_begin == index_begin,
            r.config().combine_request_threshold == combine_request_threshold,
            num_items > 0 ==> r.config().feature_begin == index_begin + attr_index_size
                + total_nodes(num_items as nat, branching_factor as nat) * 40,
            r.awaited() is None,
            r.progress().found == Seq::<HttpRange>::empty(),
            r.progress().pending == if num_items == 0 {
                Seq::<NodeRange>::empty()
            } else {
                seq![
                    NodeRange {
                        level: top_level(num_items as nat, branching_factor as nat) as usize,
                        start: 0,
                        end: 1,
                    },
                ]
            },
    {
        let mut queue: Vec<NodeRange> = Vec::new();
        if num_items == 0 {
            let config = HttpSearchConfig {
                num_items,
                node_size: branching_factor,
                query,
                index_begin,
                feature_begin: index_begin,
                combine_request_threshold,
            };
            let r = HttpSearch {
                config,
                level_bounds: Vec::new(),
                queue,
                head: 0,
                current: None,
                results: Vec::new(),
            };
            assert(r.progress().pending =~= Seq::<NodeRange>::empty());
            assert(r.progress().found =~= Seq::<HttpRange>::empty());
            return r;
        }
        let ghost n = num_items as nat;
        let ghost b = branching_factor as nat;
        let level_bounds = generate_level_bounds(num_items, branching_factor);
        proof {
            lemma_level_sizes(n, b);
            lemma_level_positions(n, b);
        }
        let num_nodes = level_bounds[0].end;
        let index_size = num_nodes * NODE_ITEM_SIZE;
        let feature_begin = index_begin + attr_index_size + index_size;
        let top = level_bounds.len() - 1;
        queue.push(NodeRange { level: top, start: 0, end: 1 });
        let config = HttpSearchConfig {
            num_items,
            node_size: branching_factor,
            query,
            index_begin,
            feature_begin,
            combine_request_threshold,
        };
        let r = HttpSearch { config, level_bounds, queue, head: 0, current: None, results: Vec::new() };
        assert(level_end(n, b, top as int) == 1);
        assert(r.progress().pending =~= seq![NodeRange { level: top, start: 0, end: 1 }]);
        assert(r.progress().found =~= Seq::<HttpRange>::empty());
        r
    }

    /// Takes the next run to fetch off the plan, passing over empty runs,
    /// and returns the byte range of its nodes in the file: where it
    /// starts and how long it is.  `None` when no run is left.
    pub fn next_request(&mut self) -> (r: Option<(usize, usize)>)
        requires
            old(self).wf(),
            old(self).awaited() is None,
        ensures
            final(self).wf(),
            final(self).config() == old(self).config(),
            final(self).progress().found == old(self).progress().found,
            match r {
                None => {
                    &&& drop_empty(old(self).progress().pending).len() == 0
                    &&& final(self).progress().pending.len() == 0
                    &&& final(self).awaited() is None
                },
                Some((begin, length)) => {
                    let rest = drop_empty(old(self).progress().pending);
                    &&& rest.len() > 0
                    &&& final(self).awaited() == Some(rest[0])
                    &&& final(self).progress().pending == rest.drop_first()
                    &&& begin == old(self).config().index_begin + rest[0].start * 40
                    &&& length == (rest[0].end - rest[0].start) * 40
                },
            },
    {
        loop
            invariant
                self.wf(),
                self.awaited() is None,
                self.config == old(self).config,
                self.results == old(self).results,
                drop_empty(self.progress().pending) == drop_empty(old(self).progress().pending),
            decreases self.queue@.len() - self.head,
        {
            if self.head >= self.queue.len() {
                assert(self.progress().pending =~= Seq::<NodeRange>::empty());
                return None;
            }
            let r = self.queue[self.head];
            let ghost before = self.progress().pending;
            assert(before[0] == r);
            self.head = self.head + 1;
            assert(self.progress().pending =~= before.drop_first());
            assert(range_ok(self.config, r));
            if r.start < r.end {
                let ghost n = self.config.num_items as nat;
                let ghost b = self.config.node_size as nat;
                proof {
                    lemma_level_sizes(n, b);
                    lemma_level_positions(n, b);
                }
                assert(r.end <= total_nodes(n, b));
                assert(r.end * 40 <= total_nodes(n, b) * 40) by (nonlinear_arith)
                    requires
                        r.end <= total_nodes(n, b),
                ;
                self.current = Some(r);
                let begin = self.config.index_begin + r.start * NODE_ITEM_SIZE;
                let length = (r.end - r.start) * NODE_ITEM_SIZE;
                return Some((begin, length));
            }
        }
    }

    /// Hands the search the bytes fetched for the awaited run, read as
    /// node items of 40 bytes each.  Each node is looked at in turn, as
    /// [`visit_items`] says.  Fails with `UnexpectedEof`, changing
    /// nothing, when the bytes do not split into whole node items.
    pub fn feed(&mut self, bytes: &[u8]) -> (r: Result<(), Error>)
        requires
            old(self).wf(),
            old(self).awaited() is Some,
        ensures
            final(self).config() == old(self).config(),
            (r is Err) == (bytes@.len() % 40 != 0),
            r is Err ==> {
                &&& r == Err::<(), Error>(Error::UnexpectedEof)
                &&& *final(self) == *old(self)
            },
            r is Ok ==> {
                &&& final(self).wf()
                &&& final(self).awaited() is None
                &&& final(self).progress() == visit_items(
                    old(self).config(),
                    old(self).awaited()->Some_0.level as nat,
                    nodes_from_bytes(bytes@, bytes@.len() / 40),
                    bytes@.len() / 40,
                    old(self).progress(),
                )
            },
    {
        if bytes.len() % NODE_ITEM_SIZE != 0 {
            return Err(Error::UnexpectedEof);
        }
        let items = decode_items(bytes);
        let range = match self.current {
            Some(range) => range,
            None => {
                return Err(Error::UnexpectedEof);
            },
        };
        let level = range.level;
        self.current = None;
        let ghost c = self.config;
        let ghost n = c.num_items as nat;
        let ghost b = c.node_size as nat;
        let ghost start = old(self).progress();
        proof {
            lemma_level_sizes(n, b);
            lemma_level_positions(n, b);
        }
        let feature_begin = self.config.feature_begin;
        let bf = self.config.node_size as u64;
        let mut i: usize = 0;
        while i < items.len()
            invariant
                self.wf(),
                n > 0,
                c == self.config,
                n == c.num_items,
                b == c.node_size,
                bf == b,
                feature_begin == c.feature_begin,
                self.current is None,
                level == range.level,
                range_ok(c, range),
                i <= items@.len(),
                self.progress() == visit_items(c, level as nat, items@, i as nat, start),
            decreases items@.len() - i,
        {
            let node = items[i];
            let ghost before = self.progress();
            if node_matches(&self.config.query, &node) {
                if level == 0 {
                    let first = feature_begin.wrapping_add(node.offset as usize);
                    let found = if i + 1 < items.len() {
                        let end = feature_begin.wrapping_add(items[i + 1].offset as usize);
                        HttpRange::Range(first..end)
                    } else {
                        HttpRange::RangeFrom(first)
                    };
                    assert(found == leaf_range(c.feature_begin, items@, i as int));
                    self.results.push(HttpSearchResultItem { range: found });
                    assert(self.progress().found =~= before.found.push(found));
                } else {
                    let child = level - 1;
                    assert(self.level_bounds@[child as int] == spec_level_bounds(n, b)[child as int]);
                    let limit = self.level_bounds[child].end;
                    proof {
                        lemma_level_sizes(n, b);
                        lemma_level_positions(n, b);
                    }
                    assert(level_end(n, b, child as int) <= total_nodes(n, b));
                    assert(limit == level_end(n, b, child as int));
                    let extra: u64 = if child == 0 {
                        1
                    } else {
                        0
                    };
                    let want = node.offset.saturating_add(bf).saturating_add(extra);
                    let end = if want < limit as u64 {
                        want as usize
                    } else {
                        limit
                    };
                    let r = NodeRange { level: child, start: node.offset as usize, end };
                    assert(r == child_range(c, node, child as nat));
                    self.plan(r);
                }
            }
            i = i + 1;
        }
        assert(items@.len() == bytes@.len() / 40);
        Ok(())
    }

    /// The feature ranges found; once no run is left, all of them.
    pub fn into_results(self) -> (r: Vec<HttpSearchResultItem>)
        ensures
            r@.map_values(|x: HttpSearchResultItem| x.range) == self.progress().found,
    {
        self.results
    }

    /// Plans the run `r`, merging it into the last planned run where
    /// [`enqueue`] says so.
    fn plan(&mut self, r: NodeRange)
        requires
            old(self).wf(),
            old(self).config.num_items > 0,
            range_ok(old(self).config, r),
        ensures
            final(self).wf(),
            final(self).config == old(self).config,
            final(self).current == old(self).current,
            final(self).level_bounds == old(self).level_bounds,
            final(self).results == old(self).results,
            final(self).progress().pending == enqueue(
                old(self).config.combine_request_threshold,
                old(self).progress().pending,
                r,
            ),
    {
        let ghost pending = self.progress().pending;
        let threshold = self.config.combine_request_threshold;
        if self.head < self.queue.len() {
            let last = self.queue.len() - 1;
            let tail = self.queue[last];
            assert(pending.last() == tail);
            if tail.level == r.level {
                let merge = if r.start >= tail.end {
                    r.start - tail.end <= threshold / NODE_ITEM_SIZE
                } else {
                    true
                };
                proof {
                    let d = r.start - tail.end;
                    if r.start >= tail.end {
                        if d <= threshold / 40 {
                            assert(d * 40 <= threshold) by (nonlinear_arith)
                                requires
                                    d <= threshold / 40,
                                    d >= 0,
                            ;
                        } else {
                            assert(d * 40 > threshold) by (nonlinear_arith)
                                requires
                                    d > threshold / 40,
                            ;
                        }
                    }
                }
                if merge {
                    let merged = NodeRange { level: tail.level, start: tail.start, end: r.end };
                    self.queue.set(last, merged);
                    assert(self.progress().pending =~= pending.update(
                        pending.len() - 1,
                        merged,
                    ));
                    assert(forall|i: int|
                        self.head <= i < self.queue@.len() ==> range_ok(
                            self.config,
                            #[trigger] self.queue@[i],
                        ));
                    return;
                }
            }
        }
        self.queue.push(r);
        assert(self.progress().pending =~= pending.push(r));
        assert(forall|i: int|
            self.head <= i < self.queue@.len() ==> range_ok(self.config, #[trigger] self.queue@[i]));
    }
}

} // verus!
