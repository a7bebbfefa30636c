//! Node items of the R-tree: a bounding box and a byte offset.

use crate::bytes::{append_u64_le, lemma_u64_le_roundtrip, le_bytes_u64, read_u64_le, u64_from_le};
use crate::error::Error;
use crate::ieee754::{eq, is_nan, le, lt, order_key, spec_eq, spec_le, spec_lt, NEG_INFINITY, POS_INFINITY};
use vstd::prelude::*;

verus! {

/// Size in bytes of an encoded node item: four coordinates and an offset,
/// eight bytes each.
pub const NODE_ITEM_SIZE: usize = 40;

/// R-tree node.
///
/// The four coordinates are binary64 values held as their bit patterns.
#[derive(Clone, Copy, Debug)]
pub struct NodeItem {
    pub min_x: u64,
    pub min_y: u64,
    pub max_x: u64,
    pub max_y: u64,
    /// Byte offset in feature data section, or, for an inner node, the
    /// position of its first child.
    pub offset: u64,
}

/// Two node items are equal when their coordinates compare equal as
/// floating-point values and their offsets are the same.
impl PartialEq for NodeItem {
    fn eq(&self, other: &NodeItem) -> (r: bool) {
        eq(self.min_x, other.min_x) && eq(self.min_y, other.min_y) && eq(self.max_x, other.max_x)
            && eq(self.max_y, other.max_y) && self.offset == other.offset
    }
}

impl vstd::std_specs::cmp::PartialEqSpecImpl for NodeItem {
    open spec fn obeys_eq_spec() -> bool {
        true
    }

    open spec fn eq_spec(&self, other: &NodeItem) -> bool {
        &&& spec_eq(self.min_x, other.min_x)
        &&& spec_eq(self.min_y, other.min_y)
        &&& spec_eq(self.max_x, other.max_x)
        &&& spec_eq(self.max_y, other.max_y)
        &&& self.offset == other.offset
    }
}

/// The box of `a` grown to cover `r`, as `NodeItem::expand` computes it.
pub open spec fn spec_expand(a: NodeItem, r: NodeItem) -> NodeItem {
    NodeItem {
        min_x: if spec_lt(r.min_x, a.min_x) { r.min_x } else { a.min_x },
        min_y: if spec_lt(r.min_y, a.min_y) { r.min_y } else { a.min_y },
        max_x: if spec_lt(a.max_x, r.max_x) { r.max_x } else { a.max_x },
        max_y: if spec_lt(a.max_y, r.max_y) { r.max_y } else { a.max_y },
        offset: a.offset,
    }
}

/// The box of `a` grown to cover the point `(x, y)`.
pub open spec fn spec_expand_xy(a: NodeItem, x: u64, y: u64) -> NodeItem {
    NodeItem {
        min_x: if spec_lt(x, a.min_x) { x } else { a.min_x },
        min_y: if spec_lt(y, a.min_y) { y } else { a.min_y },
        max_x: if spec_lt(a.max_x, x) { x } else { a.max_x },
        max_y: if spec_lt(a.max_y, y) { y } else { a.max_y },
        offset: a.offset,
    }
}

/// The boxes `a` and `r` are not separated along either axis.
pub open spec fn spec_intersects(a: NodeItem, r: NodeItem) -> bool {
    &&& !spec_lt(a.max_x, r.min_x)
    &&& !spec_lt(a.max_y, r.min_y)
    &&& !spec_lt(r.max_x, a.min_x)
    &&& !spec_lt(r.max_y, a.min_y)
}

/// The point `(x, y)` lies inside `a` or on its boundary.
pub open spec fn spec_contains_point(a: NodeItem, x: u64, y: u64) -> bool {
    &&& spec_le(a.min_x, x)
    &&& spec_le(x, a.max_x)
    &&& spec_le(a.min_y, y)
    &&& spec_le(y, a.max_y)
}

/// `v` is at most `w` as extended real numbers: neither is a NaN, and `v`
/// does not lie above `w` on the real line.
pub open spec fn real_le(v: u64, w: u64) -> bool {
    !is_nan(v) && !is_nan(w) && order_key(v) <= order_key(w)
}

/// The point `(x, y)` lies in the closed box `a`: each coordinate lies in
/// the box's closed range on its axis.
pub open spec fn point_within(a: NodeItem, x: u64, y: u64) -> bool {
    &&& real_le(a.min_x, x) && real_le(x, a.max_x)
    &&& real_le(a.min_y, y) && real_le(y, a.max_y)
}

/// The closed boxes `a` and `r`, neither with a NaN coordinate, share a
/// point: their ranges overlap or touch on both axes.
pub open spec fn boxes_meet(a: NodeItem, r: NodeItem) -> bool {
    &&& order_key(a.min_x) <= order_key(r.max_x) && order_key(r.min_x) <= order_key(a.max_x)
    &&& order_key(a.min_y) <= order_key(r.max_y) && order_key(r.min_y) <= order_key(a.max_y)
}

/// The empty box, from positive infinity to negative infinity, carrying
/// `offset`.
pub open spec fn spec_create(offset: u64) -> NodeItem {
    NodeItem {
        min_x: POS_INFINITY,
        min_y: POS_INFINITY,
        max_x: NEG_INFINITY,
        max_y: NEG_INFINITY,
        offset,
    }
}

/// `start` grown in turn by each item of `s`.
pub open spec fn expand_all(start: NodeItem, s: Seq<NodeItem>) -> NodeItem
    decreases s.len(),
{
    if s.len() == 0 {
        start
    } else {
        spec_expand(expand_all(start, s.drop_last()), s.last())
    }
}

/// The 40 bytes of a node item: the four coordinates and the offset, each
/// little endian.
pub open spec fn node_bytes(n: NodeItem) -> Seq<u8> {
    le_bytes_u64(n.min_x) + le_bytes_u64(n.min_y) + le_bytes_u64(n.max_x) + le_bytes_u64(n.max_y)
        + le_bytes_u64(n.offset)
}

/// The node item that the 40 bytes from `at` on encode.
pub open spec fn node_from_bytes(s: Seq<u8>, at: int) -> NodeItem {
    NodeItem {
        min_x: u64_from_le(s.subrange(at, at + 8)),
        min_y: u64_from_le(s.subrange(at + 8, at + 16)),
        max_x: u64_from_le(s.subrange(at + 16, at + 24)),
        max_y: u64_from_le(s.subrange(at + 24, at + 32)),
        offset: u64_from_le(s.subrange(at + 32, at + 40)),
    }
}

/// The bytes of a sequence of node items, one after the other.
pub open spec fn nodes_bytes(s: Seq<NodeItem>) -> Seq<u8>
    decreases s.len(),
{
    if s.len() == 0 {
        Seq::empty()
    } else {
        nodes_bytes(s.drop_last()) + node_bytes(s.last())
    }
}

/// The node items that `count` consecutive 40-byte records encode.
pub open spec fn nodes_from_bytes(s: Seq<u8>, count: nat) -> Seq<NodeItem> {
    Seq::new(count, |i: int| node_from_bytes(s, i * 40))
}

impl NodeItem {
    /// A box without an offset (the offset is 0).
    pub fn bounds(min_x: u64, min_y: u64, max_x: u64, max_y: u64) -> (r: NodeItem)
        ensures
            r == (NodeItem { min_x, min_y, max_x, max_y, offset: 0 }),
    {
        NodeItem { min_x, min_y, max_x, max_y, offset: 0 }
    }

    /// The same as `bounds`, kept for callers of the older name.
    pub fn new(min_x: u64, min_y: u64, max_x: u64, max_y: u64) -> (r: NodeItem)
        ensures
            r == (NodeItem { min_x, min_y, max_x, max_y, offset: 0 }),
    {
        Self::bounds(min_x, min_y, max_x, max_y)
    }

    /// The empty box: it covers nothing, and growing it by a box gives
    /// that box.
    pub fn create(offset: u64) -> (r: NodeItem)
        ensures
            r == spec_create(offset),
    {
        NodeItem {
            min_x: POS_INFINITY,
            min_y: POS_INFINITY,
            max_x: NEG_INFINITY,
            max_y: NEG_INFINITY,
            offset,
        }
    }

    /// Decodes the first 40 bytes of `raw`.
    pub fn from_bytes(raw: &[u8]) -> (r: Result<NodeItem, Error>)
        ensures
            raw@.len() < 40 ==> r == Err::<NodeItem, Error>(Error::UnexpectedEof),
            raw@.len() >= 40 ==> r == Ok::<NodeItem, Error>(node_from_bytes(raw@, 0)),
    {
        Self::from_bytes_at(raw, 0)
    }

    /// Decodes the 40 bytes of `raw` from `at` on.
    pub fn from_bytes_at(raw: &[u8], at: usize) -> (r: Result<NodeItem, Error>)
        ensures
            raw@.len() < at + 40 ==> r == Err::<NodeItem, Error>(Error::UnexpectedEof),
            raw@.len() >= at + 40 ==> r == Ok::<NodeItem, Error>(node_from_bytes(raw@, at as int)),
    {
        if raw.len() < 40 || at > raw.len() - 40 {
            return Err(Error::UnexpectedEof);
        }
        let min_x = read_u64_le(raw, at);
        let min_y = read_u64_le(raw, at + 8);
        let max_x = read_u64_le(raw, at + 16);
        let max_y = read_u64_le(raw, at + 24);
        let offset = read_u64_le(raw, at + 32);
        Ok(NodeItem { min_x, min_y, max_x, max_y, offset })
    }

    /// Appends the 40 bytes of this item to `out`.
    pub fn write(&self, out: &mut Vec<u8>)
        ensures
            final(out)@ == old(out)@ + node_bytes(*self),
    {
        append_u64_le(out, self.min_x);
        append_u64_le(out, self.min_y);
        append_u64_le(out, self.max_x);
        append_u64_le(out, self.max_y);
        append_u64_le(out, self.offset);
        assert(final(out)@ =~= old(out)@ + node_bytes(*self));
    }

    /// `a` grown to cover `b`.
    pub fn sum(a: NodeItem, b: &NodeItem) -> (r: NodeItem)
        ensures
            r == spec_expand(a, *b),
    {
        let mut a = a;
        a.expand(b);
        a
    }

    /// Grows this box to cover `r`; the offset stays.
    pub fn expand(&mut self, r: &NodeItem)
        ensures
            *final(self) == spec_expand(*old(self), *r),
    {
        if lt(r.min_x, self.min_x) {
            self.min_x = r.min_x;
        }
        if lt(r.min_y, self.min_y) {
            self.min_y = r.min_y;
        }
        if lt(self.max_x, r.max_x) {
            self.max_x = r.max_x;
        }
        if lt(self.max_y, r.max_y) {
            self.max_y = r.max_y;
        }
    }

    /// Grows this box to cover the point `(x, y)`.
    pub fn expand_xy(&mut self, x: u64, y: u64)
        ensures
            *final(self) == spec_expand_xy(*old(self), x, y),
    {
        if lt(x, self.min_x) {
            self.min_x = x;
        }
        if lt(y, self.min_y) {
            self.min_y = y;
        }
        if lt(self.max_x, x) {
            self.max_x = x;
        }
        if lt(self.max_y, y) {
            self.max_y = y;
        }
    }

    /// Whether the two boxes overlap or touch.
    pub fn intersects(&self, r: &NodeItem) -> (b: bool)
        ensures
            b == spec_intersects(*self, *r),
            b == spec_intersects(*r, *self),
            !is_nan(self.min_x) && !is_nan(self.min_y) && !is_nan(self.max_x) && !is_nan(self.max_y)
                && !is_nan(r.min_x) && !is_nan(r.min_y) && !is_nan(r.max_x) && !is_nan(r.max_y)
                ==> (b == boxes_meet(*self, *r)),
    {
        if lt(self.max_x, r.min_x) {
            return false;
        }
        if lt(self.max_y, r.min_y) {
            return false;
        }
        if lt(r.max_x, self.min_x) {
            return false;
        }
        if lt(r.max_y, self.min_y) {
            return false;
        }
        true
    }

    /// Check if a point is inside or on the boundary of this NodeItem's bounding box
    pub fn contains_point(&self, x: u64, y: u64) -> (b: bool)
        ensures
            b == spec_contains_point(*self, x, y),
            b == point_within(*self, x, y),
    {
        le(self.min_x, x) && le(x, self.max_x) && le(self.min_y, y) && le(y, self.max_y)
    }
}

/// The box that covers all `nodes`: the empty box grown by each of them.
pub fn calc_extent(nodes: &[NodeItem]) -> (r: NodeItem)
    ensures
        r == expand_all(spec_create(0), nodes@),
{
    let mut a = NodeItem::create(0);
    let mut i: usize = 0;
    while i < nodes.len()
        invariant
            i <= nodes@.len(),
            a == expand_all(spec_create(0), nodes@.take(i as int)),
        decreases nodes@.len() - i,
    {
        assert(nodes@.take(i + 1).drop_last() =~= nodes@.take(i as int));
        a.expand(&nodes[i]);
        i = i + 1;
    }
    assert(nodes@.take(i as int) =~= nodes@);
    a
}

/// Decoding the bytes of a node item gives the item back.
pub proof fn lemma_node_bytes_roundtrip(x: NodeItem)
    ensures
        node_bytes(x).len() == 40,
        node_from_bytes(node_bytes(x), 0) == x,
{
    let s = node_bytes(x);
    lemma_u64_le_roundtrip(x.min_x);
    lemma_u64_le_roundtrip(x.min_y);
    lemma_u64_le_roundtrip(x.max_x);
    lemma_u64_le_roundtrip(x.max_y);
    lemma_u64_le_roundtrip(x.offset);
    assert(s.subrange(0, 8) =~= le_bytes_u64(x.min_x));
    assert(s.subrange(8, 16) =~= le_bytes_u64(x.min_y));
    assert(s.subrange(16, 24) =~= le_bytes_u64(x.max_x));
    assert(s.subrange(24, 32) =~= le_bytes_u64(x.max_y));
    assert(s.subrange(32, 40) =~= le_bytes_u64(x.offset));
}

/// A record is decoded the same way when more bytes follow it.
proof fn lemma_node_from_bytes_prefix(a: Seq<u8>, c: Seq<u8>, at: int)
    requires
        0 <= at,
        at + 40 <= a.len(),
    ensures
        node_from_bytes(a + c, at) == node_from_bytes(a, at),
{
    let ac = a + c;
    assert(ac.subrange(at, at + 8) =~= a.subrange(at, at + 8));
    assert(ac.subrange(at + 8, at + 16) =~= a.subrange(at + 8, at + 16));
    assert(ac.subrange(at + 16, at + 24) =~= a.subrange(at + 16, at + 24));
    assert(ac.subrange(at + 24, at + 32) =~= a.subrange(at + 24, at + 32));
    assert(ac.subrange(at + 32, at + 40) =~= a.subrange(at + 32, at + 40));
}

/// A record is decoded the same way when other bytes come before it.
proof fn lemma_node_from_bytes_suffix(a: Seq<u8>, c: Seq<u8>)
    requires
        c.len() >= 40,
    ensures
        node_from_bytes(a + c, a.len() as int) == node_from_bytes(c, 0),
{
    let ac = a + c;
    let l = a.len() as int;
    assert(ac.subrange(l, l + 8) =~= c.subrange(0, 8));
    assert(ac.subrange(l + 8, l + 16) =~= c.subrange(8, 16));
    assert(ac.subrange(l + 16, l + 24) =~= c.subrange(16, 24));
    assert(ac.subrange(l + 24, l + 32) =~= c.subrange(24, 32));
    assert(ac.subrange(l + 32, l + 40) =~= c.subrange(32, 40));
}

/// Reading back the bytes written for a sequence of node items gives the
/// items, 40 bytes each.
pub proof fn lemma_nodes_bytes_roundtrip(s: Seq<NodeItem>)
    ensures
        nodes_bytes(s).len() == 40 * s.len(),
        nodes_from_bytes(nodes_bytes(s), s.len()) == s,
    decreases s.len(),
{
    if s.len() > 0 {
        let t = s.drop_last();
        lemma_nodes_bytes_roundtrip(t);
        lemma_node_bytes_roundtrip(s.last());
        let a = nodes_bytes(t);
        let c = node_bytes(s.last());
        assert(nodes_bytes(s) == a + c);
        lemma_node_from_bytes_suffix(a, c);
        assert forall|i: int| 0 <= i < s.len() implies #[trigger] nodes_from_bytes(
            a + c,
            s.len(),
        )[i] == s[i] by {
            if i < t.len() {
                assert(nodes_from_bytes(a, t.len())[i] == t[i]);
                lemma_node_from_bytes_prefix(a, c, i * 40);
            } else {
                assert(a.len() as int == i * 40);
            }
        }
        assert(nodes_from_bytes(nodes_bytes(s), s.len()) =~= s);
    }
}

/// Reading back the bytes written for a sequence of node items gives the
/// items, whatever bytes follow them.
pub proof fn lemma_nodes_bytes_roundtrip_then(s: Seq<NodeItem>, rest: Seq<u8>)
    ensures
        (nodes_bytes(s) + rest).len() == 40 * s.len() + rest.len(),
        nodes_from_bytes(nodes_bytes(s) + rest, s.len()) == s,
{
    lemma_nodes_bytes_roundtrip(s);
    let a = nodes_bytes(s);
    assert forall|i: int| 0 <= i < s.len() implies #[trigger] nodes_from_bytes(a + rest, s.len())[i]
        == s[i] by {
        assert(nodes_from_bytes(a, s.len())[i] == s[i]);
        lemma_node_from_bytes_prefix(a, rest, i * 40);
    }
    assert(nodes_from_bytes(a + rest, s.len()) =~= s);
}

/// A record inside a slice of the bytes is the record at the same place
/// in the whole.
pub proof fn lemma_node_from_bytes_slice(s: Seq<u8>, lo: int, hi: int, at: int)
    requires
        0 <= lo <= hi <= s.len(),
        0 <= at,
        lo + at + 40 <= hi,
    ensures
        node_from_bytes(s.subrange(lo, hi), at) == node_from_bytes(s, lo + at),
{
    let t = s.subrange(lo, hi);
    assert(t.subrange(at, at + 8) =~= s.subrange(lo + at, lo + at + 8));
    assert(t.subrange(at + 8, at + 16) =~= s.subrange(lo + at + 8, lo + at + 16));
    assert(t.subrange(at + 16, at + 24) =~= s.subrange(lo + at + 16, lo + at + 24));
    assert(t.subrange(at + 24, at + 32) =~= s.subrange(lo + at + 24, lo + at + 32));
    assert(t.subrange(at + 32, at + 40) =~= s.subrange(lo + at + 32, lo + at + 40));
}

/// `nodes` holds `count` node items and agrees with every whole record in
/// `data`: the items that `data` is too short for may be anything.
pub open spec fn consistent_with(nodes: Seq<NodeItem>, data: Seq<u8>, count: nat) -> bool {
    &&& nodes.len() == count
    &&& forall|i: int|
        0 <= i < count && i * 40 + 40 <= data.len() ==> #[trigger] nodes[i] == node_from_bytes(
            data,
            i * 40,
        )
}

} // verus!
