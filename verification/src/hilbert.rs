//! Hilbert curve indices, and ordering node items along the curve.

use crate::node::NodeItem;
use crate::sorting::{sort_by_first, stable_asc_arrangement};
use vstd::prelude::*;

verus! {

/// The largest cell coordinate on the curve: the grid is 2^16 by 2^16.
pub const HILBERT_MAX: u32 = 65535;

/// The quadrant of the grid that the cell `(x, y)` lies in, numbered in
/// the order the Hilbert curve visits them: lower left 0, upper left 1,
/// upper right 2, lower right 3.
pub open spec fn hilbert_quadrant(x: u32, y: u32) -> u32 {
    let right = x >= 0x8000;
    let upper = y >= 0x8000;
    if !right && !upper {
        0
    } else if !right && upper {
        1
    } else if right && upper {
        2
    } else {
        3
    }
}

/// The branch-free computation of the Hilbert position of `(x, y)`: a
/// parallel prefix over the bit pairs of the two coordinates, which
/// composes the rotations and reflections of the curve's quadrants, then
/// interleaves the bits.
pub open spec fn hilbert_code(x: u32, y: u32) -> u32 {
    let a = x ^ y;
    let b = 0xFFFFu32 ^ a;
    let c = 0xFFFFu32 ^ (x | y);
    let d = x & (y ^ 0xFFFFu32);
    let aa = a | (b >> 1u32);
    let bb = (a >> 1u32) ^ a;
    let cc = ((c >> 1u32) ^ (b & (d >> 1u32))) ^ c;
    let dd = ((a & (c >> 1u32)) ^ (d >> 1u32)) ^ d;
    let a = aa;
    let b = bb;
    let c = cc;
    let d = dd;
    let aa = (a & (a >> 2u32)) ^ (b & (b >> 2u32));
    let bb = (a & (b >> 2u32)) ^ (b & ((a ^ b) >> 2u32));
    let cc = c ^ ((a & (c >> 2u32)) ^ (b & (d >> 2u32)));
    let dd = d ^ ((b & (c >> 2u32)) ^ ((a ^ b) & (d >> 2u32)));
    let a = aa;
    let b = bb;
    let c = cc;
    let d = dd;
    let aa = (a & (a >> 4u32)) ^ (b & (b >> 4u32));
    let bb = (a & (b >> 4u32)) ^ (b & ((a ^ b) >> 4u32));
    let cc = c ^ ((a & (c >> 4u32)) ^ (b & (d >> 4u32)));
    let dd = d ^ ((b & (c >> 4u32)) ^ ((a ^ b) & (d >> 4u32)));
    let a = aa;
    let b = bb;
    let c = cc;
    let d = dd;
    let cc = c ^ ((a & (c >> 8u32)) ^ (b & (d >> 8u32)));
    let dd = d ^ ((b & (c >> 8u32)) ^ ((a ^ b) & (d >> 8u32)));
    let a = cc ^ (cc >> 1u32);
    let b = dd ^ (dd >> 1u32);
    let i0 = x ^ y;
    let i1 = b | (0xFFFFu32 ^ (i0 | a));
    let i0 = (i0 | (i0 << 8u32)) & 0x00FF00FFu32;
    let i0 = (i0 | (i0 << 4u32)) & 0x0F0F0F0Fu32;
    let i0 = (i0 | (i0 << 2u32)) & 0x33333333u32;
    let i0 = (i0 | (i0 << 1u32)) & 0x55555555u32;
    let i1 = (i1 | (i1 << 8u32)) & 0x00FF00FFu32;
    let i1 = (i1 | (i1 << 4u32)) & 0x0F0F0F0Fu32;
    let i1 = (i1 | (i1 << 2u32)) & 0x33333333u32;
    let i1 = (i1 | (i1 << 1u32)) & 0x55555555u32;
    (i1 << 1u32) | i0
}

/// The position of the cell `(x, y)` of the 2^16 by 2^16 grid along the
/// Hilbert curve, computed without branches: a parallel prefix over the
/// bit pairs of the coordinates, then an interleaving of the bits.  The
/// two highest bits of the position are the quadrant of the cell.
pub fn hilbert(x: u32, y: u32) -> (r: u32)
    ensures
        r == hilbert_code(x, y),
        x <= HILBERT_MAX && y <= HILBERT_MAX ==> r >> 30u32 == hilbert_quadrant(x, y),
{
    let mut a: u32 = x ^ y;
    let mut b: u32 = 0xFFFF ^ a;
    let mut c: u32 = 0xFFFF ^ (x | y);
    let mut d: u32 = x & (y ^ 0xFFFF);

    let mut aa: u32 = a | (b >> 1u32);
    let mut bb: u32 = (a >> 1u32) ^ a;
    let mut cc: u32 = ((c >> 1u32) ^ (b & (d >> 1u32))) ^ c;
    let mut dd: u32 = ((a & (c >> 1u32)) ^ (d >> 1u32)) ^ d;

    a = aa;
    b = bb;
    c = cc;
    d = dd;
    aa = (a & (a >> 2u32)) ^ (b & (b >> 2u32));
    bb = (a & (b >> 2u32)) ^ (b & ((a ^ b) >> 2u32));
    cc = cc ^ ((a & (c >> 2u32)) ^ (b & (d >> 2u32)));
    dd = dd ^ ((b & (c >> 2u32)) ^ ((a ^ b) & (d >> 2u32)));

    a = aa;
    b = bb;
    c = cc;
    d = dd;
    aa = (a & (a >> 4u32)) ^ (b & (b >> 4u32));
    bb = (a & (b >> 4u32)) ^ (b & ((a ^ b) >> 4u32));
    cc = cc ^ ((a & (c >> 4u32)) ^ (b & (d >> 4u32)));
    dd = dd ^ ((b & (c >> 4u32)) ^ ((a ^ b) & (d >> 4u32)));

    a = aa;
    b = bb;
    c = cc;
    d = dd;
    cc = cc ^ ((a & (c >> 8u32)) ^ (b & (d >> 8u32)));
    dd = dd ^ ((b & (c >> 8u32)) ^ ((a ^ b) & (d >> 8u32)));

    a = cc ^ (cc >> 1u32);
    b = dd ^ (dd >> 1u32);

    let mut i0: u32 = x ^ y;
    let mut i1: u32 = b | (0xFFFF ^ (i0 | a));

    i0 = (i0 | (i0 << 8u32)) & 0x00FF00FF;
    i0 = (i0 | (i0 << 4u32)) & 0x0F0F0F0F;
    i0 = (i0 | (i0 << 2u32)) & 0x33333333;
    i0 = (i0 | (i0 << 1u32)) & 0x55555555;

    i1 = (i1 | (i1 << 8u32)) & 0x00FF00FF;
    i1 = (i1 | (i1 << 4u32)) & 0x0F0F0F0F;
    i1 = (i1 | (i1 << 2u32)) & 0x33333333;
    i1 = (i1 | (i1 << 1u32)) & 0x55555555;

    let r = (i1 << 1u32) | i0;
    assert(r == hilbert_code(x, y));
    proof {
        lemma_hilbert_quadrant(x, y);
    }
    r
}

proof fn lemma_hilbert_quadrant(x: u32, y: u32)
    ensures
        x <= HILBERT_MAX && y <= HILBERT_MAX ==> hilbert_code(x, y) >> 30u32 == hilbert_quadrant(x, y),
{
    if x <= HILBERT_MAX && y <= HILBERT_MAX {
        let q = hilbert_quadrant(x, y);
        assert(hilbert_code(x, y) >> 30u32 == q) by (bit_vector)
            requires
                x < 0x10000u32,
                y < 0x10000u32,
                q == if x < 0x8000u32 && y < 0x8000u32 {
                    0u32
                } else if x < 0x8000u32 && y >= 0x8000u32 {
                    1u32
                } else if x >= 0x8000u32 && y >= 0x8000u32 {
                    2u32
                } else {
                    3u32
                },
        ;
    }
}

/// `output` is `input` ordered by the first component, greatest first,
/// with pairs of equal first components kept in their order: `perm` tells
/// where each pair of `output` comes from.
pub open spec fn stable_desc_arrangement(
    input: Seq<(u32, NodeItem)>,
    output: Seq<(u32, NodeItem)>,
    perm: Seq<int>,
) -> bool {
    &&& perm.len() == input.len()
    &&& output.len() == input.len()
    &&& forall|i: int|
        0 <= i < output.len() ==> 0 <= #[trigger] perm[i] < input.len() && output[i] == input[perm[i]]
    &&& forall|i: int, j: int| 0 <= i < j < output.len() ==> #[trigger] perm[i] != #[trigger] perm[j]
    &&& forall|i: int, j: int|
        0 <= i < j < output.len() ==> (#[trigger] output[i]).0 >= (#[trigger] output[j]).0
    &&& forall|i: int, j: int|
        0 <= i < j < output.len() && (#[trigger] output[i]).0 == (#[trigger] output[j]).0 ==> perm[i]
            < perm[j]
}

/// Each item's place paired with the distance of the curve position of its cell
/// from the last position, so that ordering by it, smallest first, orders
/// the items by curve position, last first.
spec fn complement_keyed(items: Seq<NodeItem>, cells: Seq<(u32, u32)>) -> Seq<(u32, usize)> {
    Seq::new(items.len(), |i: int| ((u32::MAX - hilbert_code(cells[i].0, cells[i].1)) as u32, i as usize))
}

/// Each item paired with the curve position of its cell.
pub open spec fn hilbert_keyed(items: Seq<NodeItem>, cells: Seq<(u32, u32)>) -> Seq<(u32, NodeItem)> {
    Seq::new(items.len(), |i: int| (hilbert_code(cells[i].0, cells[i].1), items[i]))
}

/// Each item paired with the curve position of the cell of the item it
/// came from.
pub open spec fn keyed_by_origin(items: Seq<NodeItem>, cells: Seq<(u32, u32)>, perm: Seq<int>) -> Seq<
    (u32, NodeItem),
> {
    Seq::new(items.len(), |i: int| (hilbert_code(cells[perm[i]].0, cells[perm[i]].1), items[i]))
}

/// Orders `items` along the Hilbert curve, last position first: item `i`
/// is placed by the curve position of the cell `cells[i]`, and items with
/// equal positions keep their order.
pub fn hilbert_sort(items: &mut Vec<NodeItem>, cells: &Vec<(u32, u32)>)
    requires
        cells@.len() == old(items)@.len(),
    ensures
        exists|perm: Seq<int>|
            stable_desc_arrangement(
                hilbert_keyed(old(items)@, cells@),
                keyed_by_origin(final(items)@, cells@, perm),
                perm,
            ),
{
    let ghost unsorted = items@;
    let ghost input = complement_keyed(unsorted, cells@);
    let mut keyed: Vec<(u32, usize)> = Vec::new();
    let mut i: usize = 0;
    while i < items.len()
        invariant
            items@ == unsorted,
            cells@.len() == unsorted.len(),
            input == complement_keyed(unsorted, cells@),
            i <= unsorted.len(),
            keyed@ == input.take(i as int),
        decreases unsorted.len() - i,
    {
        let key = u32::MAX - hilbert(cells[i].0, cells[i].1);
        keyed.push((key, i));
        assert(keyed@ =~= input.take(i + 1));
        i = i + 1;
    }
    assert(keyed@ =~= input);
    sort_by_first(&mut keyed);
    let ghost perm = choose|perm: Seq<int>| stable_asc_arrangement(input, keyed@, perm);
    let mut sorted: Vec<NodeItem> = Vec::new();
    let mut j: usize = 0;
    while j < keyed.len()
        invariant
            j <= keyed@.len(),
            stable_asc_arrangement(input, keyed@, perm),
            items@ == unsorted,
            input == complement_keyed(unsorted, cells@),
            sorted@ == Seq::new(j as nat, |k: int| unsorted[perm[k]]),
        decreases keyed@.len() - j,
    {
        assert(keyed@[j as int] == input[perm[j as int]]);
        sorted.push(items[keyed[j].1]);
        assert(sorted@ =~= Seq::new((j + 1) as nat, |k: int| unsorted[perm[k]]));
        j = j + 1;
    }
    *items = sorted;
    proof {
        let out = keyed_by_origin(items@, cells@, perm);
        let target = hilbert_keyed(unsorted, cells@);
        assert forall|k: int| 0 <= k < out.len() implies #[trigger] out[k] == target[perm[k]] && out[k].0
            == u32::MAX - keyed@[k].0 by {
            assert(keyed@[k] == input[perm[k]]);
        }
        assert forall|a: int, b: int| 0 <= a < b < out.len() implies (#[trigger] out[a]).0
            >= (#[trigger] out[b]).0 by {
            assert(keyed@[a].0 <= keyed@[b].0);
            assert(out[a] == target[perm[a]] && out[b] == target[perm[b]]);
        }
        assert forall|a: int, b: int| 0 <= a < b < out.len() && (#[trigger] out[a]).0 == (
        #[trigger] out[b]).0 implies perm[a] < perm[b] by {
            assert(out[a].0 == u32::MAX - keyed@[a].0);
            assert(out[b].0 == u32::MAX - keyed@[b].0);
        }
        assert(stable_desc_arrangement(target, out, perm));
    }
}

#[verifier::rlimit(100)]
proof fn lemma_block_corner_8(x: u32, y: u32)
    requires
        x <= HILBERT_MAX && y <= HILBERT_MAX,
    ensures
        hilbert_code(x, y) >> 16u32 == hilbert_code((x >> 8u32) << 8u32, (y >> 8u32) << 8u32) >> 16u32,
{
    assert(hilbert_code(x, y) >> 16u32 == hilbert_code((x >> 8u32) << 8u32, (y >> 8u32) << 8u32) >> 16u32) by (bit_vector)
        requires
            x <= 0xFFFFu32 && y <= 0xFFFFu32,
    ;
}

#[verifier::rlimit(100)]
proof fn lemma_block_corner_9(x: u32, y: u32)
    requires
        x <= HILBERT_MAX && y <= HILBERT_MAX,
    ensures
        hilbert_code(x, y) >> 18u32 == hilbert_code((x >> 9u32) << 9u32, (y >> 9u32) << 9u32) >> 18u32,
{
    assert(hilbert_code(x, y) >> 18u32 == hilbert_code((x >> 9u32) << 9u32, (y >> 9u32) << 9u32) >> 18u32) by (bit_vector)
        requires
            x <= 0xFFFFu32 && y <= 0xFFFFu32,
    ;
}

#[verifier::rlimit(100)]
proof fn lemma_block_corner_10(x: u32, y: u32)
    requires
        x <= HILBERT_MAX && y <= HILBERT_MAX,
    ensures
        hilbert_code(x, y) >> 20u32 == hilbert_code((x >> 10u32) << 10u32, (y >> 10u32) << 10u32) >> 20u32,
{
    assert(hilbert_code(x, y) >> 20u32 == hilbert_code((x >> 10u32) << 10u32, (y >> 10u32) << 10u32) >> 20u32) by (bit_vector)
        requires
            x <= 0xFFFFu32 && y <= 0xFFFFu32,
    ;
}

#[verifier::rlimit(100)]
proof fn lemma_block_corner_11(x: u32, y: u32)
    requires
        x <= HILBERT_MAX && y <= HILBERT_MAX,
    ensures
        hilbert_code(x, y) >> 22u32 == hilbert_code((x >> 11u32) << 11u32, (y >> 11u32) << 11u32) >> 22u32,
{
    assert(hilbert_code(x, y) >> 22u32 == hilbert_code((x >> 11u32) << 11u32, (y >> 11u32) << 11u32) >> 22u32) by (bit_vector)
        requires
            x <= 0xFFFFu32 && y <= 0xFFFFu32,
    ;
}

#[verifier::rlimit(100)]
proof fn lemma_block_corner_12(x: u32, y: u32)
    requires
        x <= HILBERT_MAX && y <= HILBERT_MAX,
    ensures
        hilbert_code(x, y) >> 24u32 == hilbert_code((x >> 12u32) << 12u32, (y >> 12u32) << 12u32) >> 24u32,
{
    assert(hilbert_code(x, y) >> 24u32 == hilbert_code((x >> 12u32) << 12u32, (y >> 12u32) << 12u32) >> 24u32) by (bit_vector)
        requires
            x <= 0xFFFFu32 && y <= 0xFFFFu32,
    ;
}

#[verifier::rlimit(100)]
proof fn lemma_block_corner_13(x: u32, y: u32)
    requires
        x <= HILBERT_MAX && y <= HILBERT_MAX,
    ensures
        hilbert_code(x, y) >> 26u32 == hilbert_code((x >> 13u32) << 13u32, (y >> 13u32) << 13u32) >> 26u32,
{
    assert(hilbert_code(x, y) >> 26u32 == hilbert_code((x >> 13u32) << 13u32, (y >> 13u32) << 13u32) >> 26u32) by (bit_vector)
        requires
            x <= 0xFFFFu32 && y <= 0xFFFFu32,
    ;
}

#[verifier::rlimit(100)]
proof fn lemma_block_corner_14(x: u32, y: u32)
    requires
        x <= HILBERT_MAX && y <= HILBERT_MAX,
    ensures
        hilbert_code(x, y) >> 28u32 == hilbert_code((x >> 14u32) << 14u32, (y >> 14u32) << 14u32) >> 28u32,
{
    assert(hilbert_code(x, y) >> 28u32 == hilbert_code((x >> 14u32) << 14u32, (y >> 14u32) << 14u32) >> 28u32) by (bit_vector)
        requires
            x <= 0xFFFFu32 && y <= 0xFFFFu32,
    ;
}

#[verifier::rlimit(100)]
proof fn lemma_block_corner_15(x: u32, y: u32)
    requires
        x <= HILBERT_MAX && y <= HILBERT_MAX,
    ensures
        hilbert_code(x, y) >> 30u32 == hilbert_code((x >> 15u32) << 15u32, (y >> 15u32) << 15u32) >> 30u32,
{
    assert(hilbert_code(x, y) >> 30u32 == hilbert_code((x >> 15u32) << 15u32, (y >> 15u32) << 15u32) >> 30u32) by (bit_vector)
        requires
            x <= 0xFFFFu32 && y <= 0xFFFFu32,
    ;
}

/// Cells of one aligned `2^k` by `2^k` block, for `k` from 8 to 15, have
/// positions that agree in all but their lowest `2k` bits: each such block
/// is one stretch of the curve.
pub proof fn lemma_hilbert_blocks(x1: u32, y1: u32, x2: u32, y2: u32, k: u32)
    requires
        x1 <= HILBERT_MAX && y1 <= HILBERT_MAX && x2 <= HILBERT_MAX && y2 <= HILBERT_MAX,
        8 <= k < 16,
        x1 >> k == x2 >> k,
        y1 >> k == y2 >> k,
    ensures
        hilbert_code(x1, y1) >> (2 * k) == hilbert_code(x2, y2) >> (2 * k),
{
    if k == 8 {
        lemma_block_corner_8(x1, y1);
        lemma_block_corner_8(x2, y2);
    } else if k == 9 {
        lemma_block_corner_9(x1, y1);
        lemma_block_corner_9(x2, y2);
    } else if k == 10 {
        lemma_block_corner_10(x1, y1);
        lemma_block_corner_10(x2, y2);
    } else if k == 11 {
        lemma_block_corner_11(x1, y1);
        lemma_block_corner_11(x2, y2);
    } else if k == 12 {
        lemma_block_corner_12(x1, y1);
        lemma_block_corner_12(x2, y2);
    } else if k == 13 {
        lemma_block_corner_13(x1, y1);
        lemma_block_corner_13(x2, y2);
    } else if k == 14 {
        lemma_block_corner_14(x1, y1);
        lemma_block_corner_14(x2, y2);
    } else if k == 15 {
        lemma_block_corner_15(x1, y1);
        lemma_block_corner_15(x2, y2);
    }
}

} // verus!
