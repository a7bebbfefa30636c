use rand::distributions::{Distribution, Uniform};
use flatcitybuf::hilbert::hilbert;
use flatcitybuf::levels::checked_node_count;
use flatcitybuf::{calc_extent, hilbert_sort, Error, NodeItem, PackedRTree, Query, NODE_ITEM_SIZE};

fn bounds(min_x: f64, min_y: f64, max_x: f64, max_y: f64) -> NodeItem {
    NodeItem::bounds(min_x.to_bits(), min_y.to_bits(), max_x.to_bits(), max_y.to_bits())
}

fn bbox(min_x: f64, min_y: f64, max_x: f64, max_y: f64) -> Query {
    Query::BBox(min_x.to_bits(), min_y.to_bits(), max_x.to_bits(), max_y.to_bits())
}

fn point(x: f64, y: f64) -> Query {
    Query::PointIntersects(x.to_bits(), y.to_bits())
}

/// The Hilbert grid cell of the centre of each item, on a grid of
/// 65535 x 65535 cells spread over `extent`.
fn cells(items: &[NodeItem], extent: &NodeItem) -> Vec<(u32, u32)> {
    let hilbert_max = 65535u32 as f64;
    let e_min_x = f64::from_bits(extent.min_x);
    let e_min_y = f64::from_bits(extent.min_y);
    let width = f64::from_bits(extent.max_x) - e_min_x;
    let height = f64::from_bits(extent.max_y) - e_min_y;
    items
        .iter()
        .map(|r| {
            let cx = (f64::from_bits(r.min_x) + f64::from_bits(r.max_x)) / 2.0;
            let cy = (f64::from_bits(r.min_y) + f64::from_bits(r.max_y)) / 2.0;
            let x = (hilbert_max * (cx - e_min_x) / width).floor() as u32;
            let y = (hilbert_max * (cy - e_min_y) / height).floor() as u32;
            (x, y)
        })
        .collect()
}

fn sort_along_curve(nodes: &mut Vec<NodeItem>, extent: &NodeItem) {
    let c = cells(nodes, extent);
    hilbert_sort(nodes, &c);
}

fn number_offsets(nodes: &mut Vec<NodeItem>) {
    let mut offset = 0;
    for node in nodes.iter_mut() {
        node.offset = offset;
        offset += NODE_ITEM_SIZE as u64;
    }
}

#[test]
fn tree_2items() {
    let mut nodes = Vec::new();
    nodes.push(bounds(0.0, 0.0, 1.0, 1.0));
    nodes.push(bounds(2.0, 2.0, 3.0, 3.0));
    let extent = calc_extent(&nodes);
    assert_eq!(extent, bounds(0.0, 0.0, 3.0, 3.0));
    assert!(nodes[0].intersects(&bounds(0.0, 0.0, 1.0, 1.0)));
    assert!(nodes[1].intersects(&bounds(2.0, 2.0, 3.0, 3.0)));
    sort_along_curve(&mut nodes, &extent);
    number_offsets(&mut nodes);
    assert!(nodes[1].intersects(&bounds(0.0, 0.0, 1.0, 1.0)));
    assert!(nodes[0].intersects(&bounds(2.0, 2.0, 3.0, 3.0)));
    let tree = PackedRTree::build(&nodes, &extent, PackedRTree::DEFAULT_NODE_SIZE).unwrap();
    let list = tree.search(bbox(0.0, 0.0, 1.0, 1.0)).unwrap();
    assert_eq!(list.len(), 1);
    assert!(nodes[list[0].index].intersects(&bounds(0.0, 0.0, 1.0, 1.0)));
}

#[test]
fn test_point_intersects_query() {
    let mut nodes = Vec::new();
    nodes.push(bounds(0.0, 0.0, 1.0, 1.0));
    nodes.push(bounds(2.0, 2.0, 3.0, 3.0));
    nodes.push(bounds(5.0, 5.0, 10.0, 10.0));
    nodes.push(bounds(-10.0, -10.0, 10.0, 10.0));

    let extent = calc_extent(&nodes);
    sort_along_curve(&mut nodes, &extent);
    number_offsets(&mut nodes);

    let tree = PackedRTree::build(&nodes, &extent, PackedRTree::DEFAULT_NODE_SIZE).unwrap();

    let results = tree.search(point(0.5, 0.5)).unwrap();
    assert_eq!(results.len(), 2, "Point (0.5, 0.5) should be in 2 bboxes");

    let results = tree.search(point(1.0, 1.0)).unwrap();
    assert_eq!(results.len(), 2, "Point (1.0, 1.0) should be in 2 bboxes");

    let results = tree.search(point(7.5, 7.5)).unwrap();
    assert_eq!(results.len(), 2, "Point (7.5, 7.5) should be in 2 bboxes");

    let results = tree.search(point(20.0, 20.0)).unwrap();
    assert_eq!(results.len(), 0, "Point (20.0, 20.0) should be in 0 bboxes");

    let mut tree_data: Vec<u8> = Vec::new();
    tree.stream_write(&mut tree_data).unwrap();

    let results = PackedRTree::stream_search(
        &tree_data,
        nodes.len(),
        PackedRTree::DEFAULT_NODE_SIZE,
        point(0.5, 0.5),
    )
    .unwrap();
    assert_eq!(results.len(), 2, "Stream query: Point (0.5, 0.5) should be in 2 bboxes");
}

#[test]
fn test_node_item_helper_methods() {
    let node = bounds(0.0, 0.0, 5.0, 5.0);

    assert!(node.contains_point(0.0f64.to_bits(), 0.0f64.to_bits()), "Origin point should be contained (boundary)");
    assert!(node.contains_point(5.0f64.to_bits(), 5.0f64.to_bits()), "Corner point should be contained (boundary)");
    assert!(node.contains_point(2.5f64.to_bits(), 2.5f64.to_bits()), "Center point should be contained");
    assert!(!node.contains_point((-1.0f64).to_bits(), 2.5f64.to_bits()), "Point outside should not be contained");
    assert!(!node.contains_point(6.0f64.to_bits(), 2.5f64.to_bits()), "Point outside should not be contained");
}

#[test]
fn tree_19items_roundtrip_stream_search() {
    let mut nodes = vec![
        bounds(0.0, 0.0, 1.0, 1.0),
        bounds(2.0, 2.0, 3.0, 3.0),
        bounds(100.0, 100.0, 110.0, 110.0),
        bounds(101.0, 101.0, 111.0, 111.0),
        bounds(102.0, 102.0, 112.0, 112.0),
        bounds(103.0, 103.0, 113.0, 113.0),
        bounds(104.0, 104.0, 114.0, 114.0),
        bounds(10010.0, 10010.0, 10110.0, 10110.0),
        bounds(10010.0, 10010.0, 10110.0, 10110.0),
        bounds(10010.0, 10010.0, 10110.0, 10110.0),
        bounds(10010.0, 10010.0, 10110.0, 10110.0),
        bounds(10010.0, 10010.0, 10110.0, 10110.0),
        bounds(10010.0, 10010.0, 10110.0, 10110.0),
        bounds(10010.0, 10010.0, 10110.0, 10110.0),
        bounds(10010.0, 10010.0, 10110.0, 10110.0),
        bounds(10010.0, 10010.0, 10110.0, 10110.0),
        bounds(10010.0, 10010.0, 10110.0, 10110.0),
        bounds(10010.0, 10010.0, 10110.0, 10110.0),
        bounds(10010.0, 10010.0, 10110.0, 10110.0),
    ];

    let extent = calc_extent(&nodes);
    sort_along_curve(&mut nodes, &extent);
    number_offsets(&mut nodes);
    let tree = PackedRTree::build(&nodes, &extent, PackedRTree::DEFAULT_NODE_SIZE).unwrap();
    let list = tree.search(bbox(102.0, 102.0, 103.0, 103.0)).unwrap();
    assert_eq!(list.len(), 4);

    let indexes: Vec<usize> = list.iter().map(|item| item.index).collect();
    let expected: Vec<usize> = vec![13, 14, 15, 16];
    assert_eq!(indexes, expected);

    let mut tree_data: Vec<u8> = Vec::new();
    let res = tree.stream_write(&mut tree_data);
    assert!(res.is_ok());
    assert_eq!(tree_data.len(), (nodes.len() + 3) * NODE_ITEM_SIZE);
    assert_eq!(NODE_ITEM_SIZE, 40);

    let tree2 = PackedRTree::from_buf(&tree_data[..], nodes.len(), PackedRTree::DEFAULT_NODE_SIZE)
        .unwrap();
    let list = tree2.search(bbox(102.0, 102.0, 103.0, 103.0)).unwrap();
    assert_eq!(list.len(), 4);

    let indexes: Vec<usize> = list.iter().map(|item| item.index).collect();
    let expected: Vec<usize> = vec![13, 14, 15, 16];
    assert_eq!(indexes, expected);

    let list = PackedRTree::stream_search(
        &tree_data,
        nodes.len(),
        PackedRTree::DEFAULT_NODE_SIZE,
        bbox(102.0, 102.0, 103.0, 103.0),
    )
    .unwrap();
    assert_eq!(list.len(), 4);

    let indexes: Vec<usize> = list.iter().map(|item| item.index).collect();
    let expected: Vec<usize> = vec![13, 14, 15, 16];
    assert_eq!(indexes, expected);
}

#[test]
fn tree_100_000_items_in_denmark() {
    let unifx = Uniform::from(466379..708929);
    let unify = Uniform::from(6096801..6322352);
    let mut rng = rand::thread_rng();

    let mut nodes = Vec::new();
    for _ in 0..100000 {
        let x = unifx.sample(&mut rng) as f64;
        let y = unify.sample(&mut rng) as f64;
        nodes.push(bounds(x, y, x, y));
    }

    let extent = calc_extent(&nodes);
    sort_along_curve(&mut nodes, &extent);
    let tree = PackedRTree::build(&nodes, &extent, PackedRTree::DEFAULT_NODE_SIZE).unwrap();
    let list = tree.search(bbox(690407.0, 6063692.0, 811682.0, 6176467.0)).unwrap();

    for i in 0..list.len() {
        assert!(nodes[list[i].index].intersects(&bounds(690407.0, 6063692.0, 811682.0, 6176467.0)));
    }

    let mut tree_data: Vec<u8> = Vec::new();
    let res = tree.stream_write(&mut tree_data);
    assert!(res.is_ok());

    let list2 = PackedRTree::stream_search(
        &tree_data,
        nodes.len(),
        PackedRTree::DEFAULT_NODE_SIZE,
        bbox(690407.0, 6063692.0, 811682.0, 6176467.0),
    )
    .unwrap();
    assert_eq!(list2.len(), list.len());
    for i in 0..list2.len() {
        assert!(nodes[list2[i].index].intersects(&bounds(690407.0, 6063692.0, 811682.0, 6176467.0)));
    }
}

#[test]
fn from_buf_reports_short_data() {
    let nodes = vec![bounds(0.0, 0.0, 1.0, 1.0), bounds(2.0, 2.0, 3.0, 3.0)];
    let extent = calc_extent(&nodes);
    let tree = PackedRTree::build(&nodes, &extent, 2).unwrap();
    let mut data: Vec<u8> = Vec::new();
    tree.stream_write(&mut data).unwrap();
    assert_eq!(data.len(), 3 * 40);
    let short = &data[..data.len() - 1];
    assert!(matches!(PackedRTree::from_buf(short, 2, 2), Err(Error::UnexpectedEof)));
    assert!(matches!(
        PackedRTree::stream_search(short, 2, 2, bbox(0.0, 0.0, 3.0, 3.0)),
        Err(Error::UnexpectedEof)
    ));
}

#[test]
fn search_reports_corrupt_index() {
    // Two leaves under one root; the root's children are said to start at
    // the root itself, so a matching node on the leaf level lies before the
    // leaves.
    let mut data: Vec<u8> = Vec::new();
    let root = bounds(0.0, 0.0, 3.0, 3.0);
    root.write(&mut data);
    let leaf = bounds(0.0, 0.0, 1.0, 1.0);
    leaf.write(&mut data);
    leaf.write(&mut data);
    let tree = PackedRTree::from_buf(&data, 2, 2).unwrap();
    assert!(matches!(tree.search(bbox(0.0, 0.0, 3.0, 3.0)), Err(Error::CorruptIndex)));
    assert!(matches!(
        PackedRTree::stream_search(&data, 2, 2, bbox(0.0, 0.0, 3.0, 3.0)),
        Err(Error::CorruptIndex)
    ));
}

#[test]
fn write_then_read_gives_the_nodes_back() {
    let mut nodes = Vec::new();
    for i in 0..37u64 {
        let x = i as f64;
        let mut n = bounds(x, -x, x + 0.5, -x + 0.5);
        n.offset = i * 100;
        nodes.push(n);
    }
    let extent = calc_extent(&nodes);
    let tree = PackedRTree::build(&nodes, &extent, 4).unwrap();
    let mut data: Vec<u8> = Vec::new();
    tree.stream_write(&mut data).unwrap();
    assert_eq!(data.len(), tree.size());
    assert_eq!(tree.size(), PackedRTree::index_size(37, 4));
    data.extend_from_slice(&[7u8, 7, 7]);
    let back = PackedRTree::from_buf(&data, 37, 4).unwrap();
    let mut again: Vec<u8> = Vec::new();
    back.stream_write(&mut again).unwrap();
    assert_eq!(&again[..], &data[..data.len() - 3]);
    assert_eq!(back.extent(), bounds(0.0, -36.0, 36.5, 0.5));
}

#[test]
fn search_finds_exactly_the_matching_leaves() {
    let mut nodes = Vec::new();
    for i in 0..50u64 {
        let x = (i % 10) as f64;
        let y = (i / 10) as f64;
        let mut n = bounds(x, y, x + 1.0, y + 1.0);
        n.offset = i;
        nodes.push(n);
    }
    let extent = calc_extent(&nodes);
    let tree = PackedRTree::build(&nodes, &extent, 3).unwrap();
    let q = bounds(2.5, 1.5, 4.0, 2.0);
    let found: Vec<usize> = tree
        .search(bbox(2.5, 1.5, 4.0, 2.0))
        .unwrap()
        .iter()
        .map(|r| r.index)
        .collect();
    let expected: Vec<usize> = (0..50).filter(|i| nodes[*i].intersects(&q)).collect();
    assert_eq!(found, expected);
    assert_eq!(expected, vec![12, 13, 14, 22, 23, 24]);
}

#[test]
fn node_item_box_operations() {
    let a = bounds(0.0, 0.0, 2.0, 2.0);
    let b = bounds(1.0, -1.0, 3.0, 1.0);
    assert!(a.intersects(&b));
    assert!(!a.intersects(&bounds(2.5, 2.5, 3.0, 3.0)));
    assert!(a.intersects(&bounds(2.0, 2.0, 3.0, 3.0)));
    let s = NodeItem::sum(a, &b);
    assert_eq!(s, bounds(0.0, -1.0, 3.0, 2.0));
    let mut e = NodeItem::create(5);
    assert_eq!(e.min_x, f64::INFINITY.to_bits());
    assert_eq!(e.max_x, f64::NEG_INFINITY.to_bits());
    e.expand_xy(1.0f64.to_bits(), (-2.0f64).to_bits());
    assert_eq!(e, {
        let mut t = bounds(1.0, -2.0, 1.0, -2.0);
        t.offset = 5;
        t
    });
    let empty: Vec<NodeItem> = Vec::new();
    assert_eq!(calc_extent(&empty).min_x, f64::INFINITY.to_bits());
}

#[test]
fn node_item_bytes_are_little_endian() {
    let mut n = bounds(1.0, 2.0, 3.0, 4.0);
    n.offset = 0x0102_0304_0506_0708;
    let mut out: Vec<u8> = Vec::new();
    n.write(&mut out);
    assert_eq!(out.len(), 40);
    assert_eq!(&out[0..8], &1.0f64.to_le_bytes());
    assert_eq!(&out[24..32], &4.0f64.to_le_bytes());
    assert_eq!(&out[32..40], &[8u8, 7, 6, 5, 4, 3, 2, 1]);
    let back = NodeItem::from_bytes(&out).unwrap();
    assert_eq!(back, n);
    assert!(matches!(NodeItem::from_bytes(&out[..39]), Err(Error::UnexpectedEof)));
}

#[test]
fn index_sizes() {
    assert_eq!(PackedRTree::index_size(1, 16), 2 * 40);
    assert_eq!(PackedRTree::index_size(19, 16), 22 * 40);
    assert_eq!(PackedRTree::index_size(100, 4), (100 + 25 + 7 + 2 + 1) * 40);
}

#[test]
fn hilbert_curve_positions() {
    assert_eq!(hilbert(0, 0), 0);
    assert_eq!(hilbert(1, 0), 1);
    assert_eq!(hilbert(1, 1), 2);
    assert_eq!(hilbert(0, 1), 3);
    assert_eq!(hilbert(2, 3), 9);
    assert_eq!(hilbert(32767, 32767), 715827882);
    assert_eq!(hilbert(0, 65535), 1431655765);
    assert_eq!(hilbert(65535, 65535), 2863311530);
    assert_eq!(hilbert(65535, 0), 4294967295);
    assert_eq!(hilbert(12345, 54321), 1555040834);
}

#[test]
fn hilbert_sort_orders_by_curve_position_last_first() {
    let a = bounds(0.0, 0.0, 0.0, 0.0);
    let b = bounds(1.0, 0.0, 1.0, 0.0);
    let c = bounds(1.0, 1.0, 1.0, 1.0);
    let d = bounds(0.0, 1.0, 0.0, 1.0);
    let mut tagged = Vec::new();
    for (i, n) in [a, b, c, d].iter().enumerate() {
        let mut n = *n;
        n.offset = i as u64;
        tagged.push(n);
    }
    // Cells (0,0), (1,0), (1,1), (0,1) lie at curve positions 0, 1, 2, 3.
    let cells = vec![(0u32, 0u32), (1, 0), (1, 1), (0, 1)];
    hilbert_sort(&mut tagged, &cells);
    let order: Vec<u64> = tagged.iter().map(|n| n.offset).collect();
    assert_eq!(order, vec![3, 2, 1, 0]);

    // Equal positions keep their order.
    let mut same = vec![a, b, c];
    for (i, n) in same.iter_mut().enumerate() {
        n.offset = i as u64;
    }
    hilbert_sort(&mut same, &vec![(5u32, 5u32), (5, 5), (5, 5)]);
    let order: Vec<u64> = same.iter().map(|n| n.offset).collect();
    assert_eq!(order, vec![0, 1, 2]);
}

#[test]
fn from_buf_takes_small_branching_factors_as_two() {
    let nodes = vec![bounds(0.0, 0.0, 1.0, 1.0), bounds(2.0, 2.0, 3.0, 3.0), bounds(4.0, 4.0, 5.0, 5.0)];
    let extent = calc_extent(&nodes);
    let tree = PackedRTree::build(&nodes, &extent, 2).unwrap();
    let mut data: Vec<u8> = Vec::new();
    tree.stream_write(&mut data).unwrap();
    for node_size in [0u16, 1, 2] {
        let back = PackedRTree::from_buf(&data, 3, node_size).unwrap();
        assert_eq!(back.branching_factor(), 2);
        assert_eq!(back.size(), data.len());
        let found: Vec<usize> =
            back.search(bbox(1.5, 1.5, 4.5, 4.5)).unwrap().iter().map(|r| r.index).collect();
        assert_eq!(found, vec![1, 2]);
    }
}

#[test]
fn root_box_covers_every_leaf() {
    let mut nodes = Vec::new();
    for i in 0..23u64 {
        let x = (i * 7 % 11) as f64 - 5.0;
        let y = (i * 3 % 13) as f64;
        nodes.push(bounds(x, y, x + 1.5, y + 0.25));
    }
    let extent = calc_extent(&nodes);
    let tree = PackedRTree::build(&nodes, &extent, 3).unwrap();
    let root = tree.node_items()[0];
    for leaf in &nodes {
        assert!(f64::from_bits(root.min_x) <= f64::from_bits(leaf.min_x));
        assert!(f64::from_bits(root.min_y) <= f64::from_bits(leaf.min_y));
        assert!(f64::from_bits(root.max_x) >= f64::from_bits(leaf.max_x));
        assert!(f64::from_bits(root.max_y) >= f64::from_bits(leaf.max_y));
    }
    assert_eq!(NodeItem { offset: 0, ..root }, NodeItem { offset: 0, ..extent });
    assert_eq!(root.offset, 1);
}

#[test]
fn checked_node_counts() {
    assert_eq!(checked_node_count(19, 16), Some(22));
    assert_eq!(checked_node_count(100, 4), Some(135));
    assert_eq!(checked_node_count(0, 16), None);
    assert_eq!(checked_node_count(5, 1), None);
    assert_eq!(checked_node_count(usize::MAX, 2), None);
    assert_eq!(checked_node_count(usize::MAX / 40, 2), None);
    assert_eq!(PackedRTree::index_size(19, 16), 22 * 40);
}

#[test]
fn hilbert_blocks_are_stretches_of_the_curve() {
    // Cells of the aligned 256 x 256 block at (256, 0) share the top 16 bits.
    let top = hilbert(256, 0) >> 16;
    for (x, y) in [(300u32, 10u32), (511, 255), (256, 255), (400, 128)] {
        assert_eq!(hilbert(x, y) >> 16, top);
    }
    // Cells of the aligned 2^15 block of the upper left quadrant share the top 2 bits.
    assert_eq!(hilbert(0, 40000) >> 30, hilbert(32767, 65535) >> 30);
}

#[test]
fn stream_search_of_short_data_succeeds_when_the_visits_fit() {
    let mut nodes = Vec::new();
    for i in 0..5u64 {
        let x = i as f64;
        let mut n = bounds(x, 0.0, x + 0.5, 0.5);
        n.offset = 10 * i;
        nodes.push(n);
    }
    let extent = calc_extent(&nodes);
    let tree = PackedRTree::build(&nodes, &extent, 2).unwrap();
    let mut data: Vec<u8> = Vec::new();
    tree.stream_write(&mut data).unwrap();
    assert_eq!(data.len(), 11 * 40);
    // The search for the first leaf reads nothing past the eighth node.
    let short = &data[..8 * 40];
    let found = PackedRTree::stream_search(short, 5, 2, bbox(0.0, 0.0, 0.2, 0.2)).unwrap();
    let found: Vec<(usize, usize)> = found.iter().map(|r| (r.index, r.offset)).collect();
    assert_eq!(found, vec![(0, 0)]);
    // The search for the last leaf needs the eleventh node.
    assert!(matches!(
        PackedRTree::stream_search(short, 5, 2, bbox(4.0, 0.0, 4.2, 0.2)),
        Err(Error::UnexpectedEof)
    ));
}

/// The Hilbert position by the quadrant walk: at each level, the quadrant
/// number, then the cell turned into the quadrant's frame.
fn quadrant_walk(mut x: u32, mut y: u32) -> u32 {
    let mut d = 0u32;
    for i in (0..16).rev() {
        let rx = (x >> i) & 1;
        let ry = (y >> i) & 1;
        d |= ((3 * rx) ^ ry) << (2 * i);
        if ry == 0 {
            if rx == 1 {
                x ^= 0xFFFF;
                y ^= 0xFFFF;
            }
            std::mem::swap(&mut x, &mut y);
        }
    }
    d
}

#[test]
fn hilbert_is_the_quadrant_walk_and_steps_to_neighbours() {
    let mut seed: u64 = 0x9E37_79B9_7F4A_7C15;
    for _ in 0..20000 {
        seed = seed.wrapping_mul(6364136223846793005).wrapping_add(1442695040888963407);
        let x = ((seed >> 16) & 0xFFFF) as u32;
        let y = ((seed >> 40) & 0xFFFF) as u32;
        assert_eq!(hilbert(x, y), quadrant_walk(x, y));
    }
    // The aligned 256 x 256 block at the origin is one stretch of the
    // curve, visited one neighbouring cell after another.
    let mut cells: Vec<(u32, u32, u32)> = Vec::new();
    for x in 0..256u32 {
        for y in 0..256u32 {
            cells.push((hilbert(x, y), x, y));
        }
    }
    cells.sort();
    for w in cells.windows(2) {
        assert_eq!(w[1].0, w[0].0 + 1);
        assert_eq!(w[0].1.abs_diff(w[1].1) + w[0].2.abs_diff(w[1].2), 1);
    }
}
