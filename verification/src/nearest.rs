//! The nearest-neighbour search: a best-first walk of the tree.
//!
//! A [`NearestSearch`] keeps the runs of nodes still to visit, each with
//! the least distance of its parent to the query point, and the closest
//! leaf found so far.  It always visits the waiting run that no other
//! waiting run is closer than, and stops once that run is farther than
//! the closest leaf.  The caller reads the nodes of each run and hands
//! them over with, for each node, its least squared distance to the
//! point and the squared distance of its centre, computed in binary64
//! and given as bit patterns; the search compares them as binary64
//! values.

use crate::error::Error;
use crate::http::{HttpRange, HttpSearchResultItem};
use crate::http_search::wrap_add;
use crate::ieee754::{le, lt, spec_le, spec_lt};
use crate::levels::{
    generate_level_bounds, lemma_level_positions, lemma_level_sizes, level_end, shape_ok,
    spec_level_bounds, total_nodes,
};
use crate::node::NodeItem;
use crate::search::{top_level, SearchResultItem};
use crate::tree::{leaf_start, min_int};
use vstd::prelude::*;

verus! {

/// How the runs of an index are laid out for the search.
#[derive(Debug, Clone, Copy, PartialEq, Eq, Structural)]
pub enum Layout {
    /// A run is the group of children of a node; it holds leaves when it
    /// starts at or after the first leaf.
    Tree,
    /// A run is the group of children of a node, with one node more on the
    /// leaf level, so that the byte range of each feature is known; it
    /// holds leaves when it lies on the leaf level.
    Http,
}

/// What a nearest-neighbour search is set up with.
#[derive(Debug, Clone, Copy)]
pub struct NearestConfig {
    pub num_items: usize,
    pub node_size: u16,
    pub layout: Layout,
}

/// A run of nodes waiting to be visited, `start..end` on `level`, with the
/// least distance of the node that planned it.
#[derive(Debug, Clone, Copy)]
pub struct NearestEntry {
    pub distance: u64,
    pub start: usize,
    pub end: usize,
    pub level: usize,
}

/// The closest leaf found so far: its centre distance, its position, its
/// offset and the offset of the node after it in its run, if any.
#[derive(Debug, Clone, Copy)]
pub struct Nearest {
    pub distance: u64,
    pub pos: usize,
    pub offset: u64,
    pub next_offset: Option<u64>,
}

/// The waiting runs and the closest leaf found so far.
pub ghost struct NearestProgress {
    pub pending: Seq<NearestEntry>,
    pub best: Option<Nearest>,
}

/// The waiting run at `i` is one that no waiting run is closer than.
pub open spec fn closest_first(q: Seq<NearestEntry>, i: int) -> bool {
    &&& 0 <= i < q.len()
    &&& forall|j: int| 0 <= j < q.len() ==> !spec_lt(#[trigger] q[j].distance, q[i].distance)
}

/// The search stops before a run that is farther than the closest leaf.
pub open spec fn beyond_best(best: Option<Nearest>, e: NearestEntry) -> bool {
    best matches Some(b) && spec_lt(b.distance, e.distance)
}

/// The run visited holds leaves.
pub open spec fn holds_leaves(c: NearestConfig, e: NearestEntry) -> bool {
    match c.layout {
        Layout::Tree => e.start >= leaf_start(c.num_items as nat, c.node_size as nat),
        Layout::Http => e.level == 0,
    }
}

/// The run planned for the children of a node with offset `offset`, on
/// `child_level`, at distance `d`.
pub open spec fn child_entry(c: NearestConfig, offset: u64, child_level: nat, d: u64) -> NearestEntry {
    let n = c.num_items as nat;
    let b = c.node_size as nat;
    let extra: int = if c.layout == Layout::Http && child_level == 0 {
        1
    } else {
        0
    };
    NearestEntry {
        distance: d,
        start: offset as usize,
        end: min_int(offset + b + extra, level_end(n, b, child_level as int) as int) as usize,
        level: child_level as usize,
    }
}

/// The progress after looking at the node at place `i` of the run `e`,
/// with `dists[i]` its least distance and its centre distance.  Only the
/// first `node_size` nodes of a run, the group of children of the node
/// that planned it, are candidates: the node after them, fetched on the
/// leaf level over HTTP, only tells where the last candidate's feature
/// ends.  A node not closer than the closest leaf is passed over; a leaf closer by its
/// centre becomes the closest leaf; an inner node plans the run of its
/// children.  `None` when a node of a run on the leaf level does not hold
/// leaves, which would descend below the leaves.
pub open spec fn nearest_visit(
    c: NearestConfig,
    e: NearestEntry,
    items: Seq<NodeItem>,
    dists: Seq<(u64, u64)>,
    i: int,
    s: NearestProgress,
) -> Option<NearestProgress> {
    let d = dists[i].0;
    if i >= c.node_size {
        Some(s)
    } else if s.best matches Some(b) && spec_le(b.distance, d) {
        Some(s)
    } else if holds_leaves(c, e) {
        let cand = Nearest {
            distance: dists[i].1,
            pos: (e.start + i) as usize,
            offset: items[i].offset,
            next_offset: if i + 1 < items.len() {
                Some(items[i + 1].offset)
            } else {
                None
            },
        };
        if s.best is None || spec_lt(dists[i].1, s.best->Some_0.distance) {
            Some(NearestProgress { pending: s.pending, best: Some(cand) })
        } else {
            Some(s)
        }
    } else if e.level == 0 {
        None
    } else {
        Some(
            NearestProgress {
                pending: s.pending.push(child_entry(c, items[i].offset, (e.level - 1) as nat, d)),
                best: s.best,
            },
        )
    }
}

/// The progress after looking at the first `k` nodes of the run `e`.
pub open spec fn nearest_visits(
    c: NearestConfig,
    e: NearestEntry,
    items: Seq<NodeItem>,
    dists: Seq<(u64, u64)>,
    k: nat,
    s: NearestProgress,
) -> Option<NearestProgress>
    decreases k,
{
    if k == 0 {
        Some(s)
    } else {
        match nearest_visits(c, e, items, dists, (k - 1) as nat, s) {
            Some(p) => nearest_visit(c, e, items, dists, k - 1, p),
            None => None,
        }
    }
}

/// The state of a nearest-neighbour search.
pub struct NearestSearch {
    config: NearestConfig,
    level_bounds: Vec<core::ops::Range<usize>>,
    queue: Vec<NearestEntry>,
    current: Option<NearestEntry>,
    best: Option<Nearest>,
}

impl NearestSearch {
    /// What the search was set up with.
    pub closed spec fn config(self) -> NearestConfig {
        self.config
    }

    /// The waiting runs and the closest leaf found.
    pub closed spec fn progress(self) -> NearestProgress {
        NearestProgress { pending: self.queue@, best: self.best }
    }

    /// The run whose nodes are awaited.
    pub closed spec fn awaited(self) -> Option<NearestEntry> {
        self.current
    }

    /// The state is one that a search can be in.
    pub closed spec fn wf(self) -> bool {
        let c = self.config;
        let n = c.num_items as nat;
        let b = c.node_size as nat;
        &&& shape_ok(n, b)
        &&& self.level_bounds@ == spec_level_bounds(n, b)
        &&& forall|i: int|
            0 <= i < self.queue@.len() ==> {
                &&& (#[trigger] self.queue@[i]).level <= top_level(n, b)
                &&& self.queue@[i].end <= level_end(n, b, self.queue@[i].level as int)
            }
        &&& self.current matches Some(e) ==> e.level <= top_level(n, b) && e.end <= level_end(
            n,
            b,
            e.level as int,
        )
        &&& c.layout == Layout::Tree ==> (self.best matches Some(x) ==> x.pos >= leaf_start(n, b))
    }

    /// Starts a search of a tree with `num_items` leaves and branching
    /// factor `node_size` from the root, at distance 0.
    pub fn new(num_items: usize, node_size: u16, layout: Layout) -> (r: NearestSearch)
        requires
            shape_ok(num_items as nat, node_size as nat),
        ensures
            r.wf(),
            r.config() == (NearestConfig { num_items, node_size, layout }),
            r.awaited() is None,
            r.progress() == (NearestProgress {
                pending: seq![
                    NearestEntry {
                        distance: 0,
                        start: 0,
                        end: 1,
                        level: top_level(num_items as nat, node_size as nat) as usize,
                    },
                ],
                best: None,
            }),
    {
        let ghost n = num_items as nat;
        let ghost b = node_size as nat;
        let level_bounds = generate_level_bounds(num_items, node_size);
        proof {
            lemma_level_sizes(n, b);
            lemma_level_positions(n, b);
        }
        let top = level_bounds.len() - 1;
        let mut queue: Vec<NearestEntry> = Vec::new();
        queue.push(NearestEntry { distance: 0, start: 0, end: 1, level: top });
        let r = NearestSearch {
            config: NearestConfig { num_items, node_size, layout },
            level_bounds,
            queue,
            current: None,
            best: None,
        };
        assert(level_end(n, b, top as int) == 1);
        assert(r.progress().pending =~= seq![NearestEntry { distance: 0, start: 0, end: 1, level: top }]);
        r
    }

    /// Takes off the waiting run that no waiting run is closer than.
    fn pop_closest(&mut self) -> (r: NearestEntry)
        requires
            old(self).wf(),
            old(self).queue@.len() > 0,
        ensures
            final(self).config == old(self).config,
            final(self).level_bounds == old(self).level_bounds,
            final(self).current == old(self).current,
            final(self).best == old(self).best,
            final(self).wf(),
            exists|i: int|
                closest_first(old(self).queue@, i) && r == old(self).queue@[i] && final(self).queue@
                    == old(self).queue@.remove(i),
    {
        let mut best_i: usize = 0;
        let mut k: usize = 1;
        while k < self.queue.len()
            invariant
                self == old(self),
                0 <= best_i < k <= self.queue@.len(),
                forall|j: int|
                    0 <= j < k ==> !spec_lt(
                        #[trigger] self.queue@[j].distance,
                        self.queue@[best_i as int].distance,
                    ),
            decreases self.queue@.len() - k,
        {
            if lt(self.queue[k].distance, self.queue[best_i].distance) {
                best_i = k;
            }
            k = k + 1;
        }
        let ghost q = self.queue@;
        let r = self.queue.remove(best_i);
        assert(closest_first(q, best_i as int));
        assert forall|i: int| 0 <= i < self.queue@.len() implies {
            &&& (#[trigger] self.queue@[i]).level <= top_level(
                self.config.num_items as nat,
                self.config.node_size as nat,
            )
            &&& self.queue@[i].end <= level_end(
                self.config.num_items as nat,
                self.config.node_size as nat,
                self.queue@[i].level as int,
            )
        } by {
            if i < best_i {
                assert(self.queue@[i] == q[i]);
            } else {
                assert(self.queue@[i] == q[i + 1]);
            }
        }
        r
    }

    /// Takes off the next run to visit and returns its first node and its
    /// number of nodes (0 for an empty run).  `None` when no run waits, or
    /// when the run taken off is farther than the closest leaf: the search
    /// is then done.
    pub fn next_request(&mut self) -> (r: Option<(usize, usize)>)
        requires
            old(self).wf(),
            old(self).awaited() is None,
        ensures
            final(self).wf(),
            final(self).config() == old(self).config(),
            final(self).progress().best == old(self).progress().best,
            final(self).awaited() is None <==> r is None,
            old(self).progress().pending.len() == 0 ==> r is None,
            old(self).progress().pending.len() > 0 ==> exists|i: int|
                {
                    let e = old(self).progress().pending[i];
                    &&& #[trigger] closest_first(old(self).progress().pending, i)
                    &&& final(self).progress().pending == old(self).progress().pending.remove(i)
                    &&& beyond_best(old(self).progress().best, e) ==> r is None
                    &&& !beyond_best(old(self).progress().best, e) ==> {
                        &&& final(self).awaited() == Some(e)
                        &&& r == Some(
                            (e.start, if e.end > e.start { (e.end - e.start) as usize } else { 0usize }),
                        )
                    }
                },
    {
        if self.queue.len() == 0 {
            return None;
        }
        let e = self.pop_closest();
        let stop = match self.best {
            Some(b) => lt(b.distance, e.distance),
            None => false,
        };
        if stop {
            return None;
        }
        self.current = Some(e);
        let count = if e.end > e.start {
            e.end - e.start
        } else {
            0
        };
        Some((e.start, count))
    }

    /// Hands over the nodes of the awaited run, `nodes[i]` at position
    /// `start + i`, with `dists[i]` its least distance and its centre
    /// distance to the query point.  Each node is looked at in turn, as
    /// [`nearest_visits`] says.  Fails with `CorruptIndex` when a node of
    /// a run on the leaf level does not hold leaves.
    pub fn feed(&mut self, nodes: &Vec<NodeItem>, dists: &Vec<(u64, u64)>) -> (r: Result<(), Error>)
        requires
            old(self).wf(),
            old(self).awaited() matches Some(e) && (nodes@.len() == 0 || e.start + nodes@.len() <= e.end),
            dists@.len() == nodes@.len(),
        ensures
            final(self).config() == old(self).config(),
            final(self).awaited() is None,
            match nearest_visits(
                old(self).config(),
                old(self).awaited()->Some_0,
                nodes@,
                dists@,
                nodes@.len(),
                old(self).progress(),
            ) {
                Some(p) => r is Ok && final(self).wf() && final(self).progress() == p,
                None => r == Err::<(), Error>(Error::CorruptIndex),
            },
    {
        let e = match self.current {
            Some(e) => e,
            None => {
                return Err(Error::CorruptIndex);
            },
        };
        self.current = None;
        let ghost c = self.config;
        let ghost n = c.num_items as nat;
        let ghost b = c.node_size as nat;
        let ghost start = old(self).progress();
        let bf = self.config.node_size as u64;
        let leaf_begin = self.level_bounds[0].start;
        proof {
            lemma_level_sizes(n, b);
            lemma_level_positions(n, b);
        }
        assert(leaf_begin == leaf_start(n, b));
        let mut i: usize = 0;
        while i < nodes.len()
            invariant
                self.wf(),
                c == self.config,
                c == old(self).config,
                start == old(self).progress(),
                n == c.num_items,
                b == c.node_size,
                bf == b,
                leaf_begin == leaf_start(n, b),
                self.current is None,
                e == old(self).current->Some_0,
                e.level <= top_level(n, b),
                e.end <= level_end(n, b, e.level as int),
                nodes@.len() == 0 || e.start + nodes@.len() <= e.end,
                dists@.len() == nodes@.len(),
                i <= nodes@.len(),
                nearest_visits(c, e, nodes@, dists@, i as nat, start) == Some(self.progress()),
            decreases nodes@.len() - i,
        {
            let node = nodes[i];
            let (d, centroid) = dists[i];
            let ghost before = self.progress();
            let skip = if i >= self.config.node_size as usize {
                true
            } else {
                match self.best {
                    Some(bst) => le(bst.distance, d),
                    None => false,
                }
            };
            if !skip {
                let leaves = match self.config.layout {
                    Layout::Tree => e.start >= leaf_begin,
                    Layout::Http => e.level == 0,
                };
                if leaves {
                    let closer = match self.best {
                        Some(bst) => lt(centroid, bst.distance),
                        None => true,
                    };
                    if closer {
                        let next_offset = if i + 1 < nodes.len() {
                            Some(nodes[i + 1].offset)
                        } else {
                            None
                        };
                        self.best = Some(
                            Nearest { distance: centroid, pos: e.start + i, offset: node.offset, next_offset },
                        );
                    }
                } else if e.level == 0 {
                    assert(nearest_visits(c, e, nodes@, dists@, (i + 1) as nat, start) is None);
                    proof {
                        lemma_nearest_visits_stuck(c, e, nodes@, dists@, (i + 1) as nat, nodes@.len(), start);
                    }
                    return Err(Error::CorruptIndex);
                } else {
                    let child = e.level - 1;
                    assert(self.level_bounds@[child as int] == spec_level_bounds(n, b)[child as int]);
                    let limit = self.level_bounds[child].end;
                    proof {
                        lemma_level_sizes(n, b);
                        lemma_level_positions(n, b);
                    }
                    assert(level_end(n, b, child as int) <= total_nodes(n, b));
                    assert(limit == level_end(n, b, child as int));
                    let extra: u64 = if self.config.layout == Layout::Http && child == 0 {
                        1
                    } else {
                        0
                    };
                    let want = node.offset.saturating_add(bf).saturating_add(extra);
                    let end = if want < limit as u64 {
                        want as usize
                    } else {
                        limit
                    };
                    let entry = NearestEntry { distance: d, start: node.offset as usize, end, level: child };
                    assert(entry == child_entry(c, node.offset, child as nat, d));
                    self.queue.push(entry);
                    assert(self.progress().pending =~= before.pending.push(entry));
                    assert forall|j: int| 0 <= j < self.queue@.len() implies {
                        &&& (#[trigger] self.queue@[j]).level <= top_level(n, b)
                        &&& self.queue@[j].end <= level_end(n, b, self.queue@[j].level as int)
                    } by {
                        if j < before.pending.len() {
                            assert(self.queue@[j] == before.pending[j]);
                        }
                    }
                }
            }
            i = i + 1;
        }
        Ok(())
    }

    /// The closest leaf found, as the result of a search of a tree: its
    /// offset and its position among the leaves; none when no leaf was
    /// found.
    pub fn into_results(self) -> (r: Vec<SearchResultItem>)
        requires
            self.wf(),
            self.config().layout == Layout::Tree,
        ensures
            r@ == match self.progress().best {
                Some(x) => seq![
                    SearchResultItem {
                        offset: x.offset as usize,
                        index: (x.pos - leaf_start(
                            self.config().num_items as nat,
                            self.config().node_size as nat,
                        )) as usize,
                    },
                ],
                None => Seq::<SearchResultItem>::empty(),
            },
    {
        let mut out: Vec<SearchResultItem> = Vec::new();
        match self.best {
            Some(x) => {
                let leaf_begin = self.level_bounds[0].start;
                proof {
                    lemma_level_sizes(self.config.num_items as nat, self.config.node_size as nat);
                }
                out.push(SearchResultItem { offset: x.offset as usize, index: x.pos - leaf_begin });
                assert(out@ =~= seq![
                    SearchResultItem {
                        offset: x.offset as usize,
                        index: (x.pos - leaf_start(
                            self.config.num_items as nat,
                            self.config.node_size as nat,
                        )) as usize,
                    },
                ]);
            },
            None => {},
        }
        out
    }

    /// The closest leaf found, as the result of a search over HTTP: the
    /// byte range of its feature, up to the feature of the node after it
    /// in its run, or open when no node followed it; none when no leaf was
    /// found.  Over a built tree the node after a leaf is the next leaf,
    /// and none follows only the last leaf (see the nearest-search law).
    pub fn into_http_results(self, feature_begin: usize) -> (r: Vec<HttpSearchResultItem>)
        ensures
            r@.map_values(|x: HttpSearchResultItem| x.range) == match self.progress().best {
                Some(x) => seq![
                    match x.next_offset {
                        Some(o) => HttpRange::Range(
                            core::ops::Range {
                                start: wrap_add(feature_begin, x.offset as usize),
                                end: wrap_add(feature_begin, o as usize),
                            },
                        ),
                        None => HttpRange::RangeFrom(wrap_add(feature_begin, x.offset as usize)),
                    },
                ],
                None => Seq::<HttpRange>::empty(),
            },
    {
        let mut out: Vec<HttpSearchResultItem> = Vec::new();
        match self.best {
            Some(x) => {
                let start = feature_begin.wrapping_add(x.offset as usize);
                let range = match x.next_offset {
                    Some(o) => HttpRange::Range(start..feature_begin.wrapping_add(o as usize)),
                    None => HttpRange::RangeFrom(start),
                };
                out.push(HttpSearchResultItem { range });
                assert(out@.map_values(|x: HttpSearchResultItem| x.range) =~= seq![range]);
            },
            None => {
                assert(out@.map_values(|x: HttpSearchResultItem| x.range) =~= Seq::<HttpRange>::empty());
            },
        }
        out
    }
}

/// Once the visits fail, they stay failed.
proof fn lemma_nearest_visits_stuck(
    c: NearestConfig,
    e: NearestEntry,
    items: Seq<NodeItem>,
    dists: Seq<(u64, u64)>,
    k: nat,
    m: nat,
    s: NearestProgress,
)
    requires
        k <= m,
        nearest_visits(c, e, items, dists, k, s) is None,
    ensures
        nearest_visits(c, e, items, dists, m, s) is None,
    decreases m - k,
{
    if k < m {
        lemma_nearest_visits_stuck(c, e, items, dists, k, (m - 1) as nat, s);
    }
}

} // verus!
