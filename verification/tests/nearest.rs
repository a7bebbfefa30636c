use flatcitybuf::nearest::{Layout, NearestSearch};
use flatcitybuf::{calc_extent, hilbert_sort, NodeItem, PackedRTree, SearchResultItem, NODE_ITEM_SIZE};

fn bounds(min_x: f64, min_y: f64, max_x: f64, max_y: f64) -> NodeItem {
    NodeItem::bounds(min_x.to_bits(), min_y.to_bits(), max_x.to_bits(), max_y.to_bits())
}

fn f(bits: u64) -> f64 {
    f64::from_bits(bits)
}

fn min_distance_squared(n: &NodeItem, x: f64, y: f64) -> f64 {
    if f(n.min_x) <= x && x <= f(n.max_x) && f(n.min_y) <= y && y <= f(n.max_y) {
        return 0.0;
    }
    let cx = x.clamp(f(n.min_x), f(n.max_x));
    let cy = y.clamp(f(n.min_y), f(n.max_y));
    (x - cx) * (x - cx) + (y - cy) * (y - cy)
}

fn centroid_distance_squared(n: &NodeItem, x: f64, y: f64) -> f64 {
    let cx = (f(n.min_x) + f(n.max_x)) / 2.0;
    let cy = (f(n.min_y) + f(n.max_y)) / 2.0;
    (x - cx) * (x - cx) + (y - cy) * (y - cy)
}

fn distances(nodes: &[NodeItem], x: f64, y: f64) -> Vec<(u64, u64)> {
    nodes
        .iter()
        .map(|n| (min_distance_squared(n, x, y).to_bits(), centroid_distance_squared(n, x, y).to_bits()))
        .collect()
}

/// Runs the nearest-neighbour search over the index bytes `data`.
fn nearest_in(data: &[u8], num_items: usize, node_size: u16, x: f64, y: f64) -> Vec<SearchResultItem> {
    let mut search = NearestSearch::new(num_items, node_size, Layout::Tree);
    while let Some((first, count)) = search.next_request() {
        let mut nodes = Vec::new();
        for i in first..first + count {
            nodes.push(NodeItem::from_bytes(&data[i * NODE_ITEM_SIZE..]).unwrap());
        }
        let dists = distances(&nodes, x, y);
        search.feed(&nodes, &dists).unwrap();
    }
    search.into_results()
}

/// Runs the nearest-neighbour search over the nodes of `tree`.
fn nearest_of(tree: &PackedRTree, x: f64, y: f64) -> Vec<SearchResultItem> {
    let nodes = tree.node_items();
    let mut search = NearestSearch::new(tree.num_leaf_nodes(), tree.branching_factor(), Layout::Tree);
    while let Some((first, count)) = search.next_request() {
        let run: Vec<NodeItem> = nodes[first..first + count].to_vec();
        let dists = distances(&run, x, y);
        search.feed(&run, &dists).unwrap();
    }
    search.into_results()
}

fn cells(items: &[NodeItem], extent: &NodeItem) -> Vec<(u32, u32)> {
    let hilbert_max = 65535u32 as f64;
    let width = f(extent.max_x) - f(extent.min_x);
    let height = f(extent.max_y) - f(extent.min_y);
    items
        .iter()
        .map(|r| {
            let x = (hilbert_max * ((f(r.min_x) + f(r.max_x)) / 2.0 - f(extent.min_x)) / width).floor() as u32;
            let y = (hilbert_max * ((f(r.min_y) + f(r.max_y)) / 2.0 - f(extent.min_y)) / height).floor() as u32;
            (x, y)
        })
        .collect()
}

#[test]
fn test_nearest_neighbor_query() {
    let mut nodes = Vec::new();
    nodes.push(bounds(0.0, 0.0, 1.0, 1.0));
    nodes.push(bounds(2.0, 2.0, 3.0, 3.0));
    nodes.push(bounds(5.0, 5.0, 10.0, 10.0));
    nodes.push(bounds(-10.0, -10.0, -5.0, -5.0));

    let extent = calc_extent(&nodes);
    let c = cells(&nodes, &extent);
    hilbert_sort(&mut nodes, &c);

    let mut offset = 0;
    for node in &mut nodes {
        node.offset = offset;
        offset += NODE_ITEM_SIZE as u64;
    }

    let tree = PackedRTree::build(&nodes, &extent, PackedRTree::DEFAULT_NODE_SIZE).unwrap();

    let results = nearest_of(&tree, 0.0, 0.0);
    assert_eq!(results.len(), 1, "Should find exactly one nearest node");

    let node0_centroid = (0.5, 0.5);
    let node3_centroid = (-7.5, -7.5);
    let dist_to_node0 = (node0_centroid.0 - 0.0) * (node0_centroid.0 - 0.0)
        + (node0_centroid.1 - 0.0) * (node0_centroid.1 - 0.0);
    let dist_to_node3 = (node3_centroid.0 - 0.0) * (node3_centroid.0 - 0.0)
        + (node3_centroid.1 - 0.0) * (node3_centroid.1 - 0.0);
    assert!(dist_to_node0 < dist_to_node3, "Node 0 should be closer than Node 3");

    let results = nearest_of(&tree, 4.0, 4.0);
    assert_eq!(results.len(), 1, "Should find exactly one nearest node");

    let mut tree_data: Vec<u8> = Vec::new();
    tree.stream_write(&mut tree_data).unwrap();
    let results = nearest_in(&tree_data, nodes.len(), PackedRTree::DEFAULT_NODE_SIZE, 0.0, 0.0);
    assert_eq!(results.len(), 1, "Stream query: Should find exactly one nearest node");
}

#[test]
fn nearest_is_the_leaf_with_the_closest_centre() {
    let mut nodes = Vec::new();
    for i in 0..40u64 {
        let x = (i % 8) as f64 * 3.0;
        let y = (i / 8) as f64 * 3.0;
        let mut n = bounds(x, y, x + 1.0, y + 1.0);
        n.offset = i;
        nodes.push(n);
    }
    let extent = calc_extent(&nodes);
    let tree = PackedRTree::build(&nodes, &extent, 4).unwrap();
    for (px, py) in [(0.0, 0.0), (7.4, 4.2), (30.0, -3.0), (12.6, 13.1)] {
        let found = nearest_of(&tree, px, py);
        assert_eq!(found.len(), 1);
        let best = nodes
            .iter()
            .enumerate()
            .min_by(|a, b| {
                centroid_distance_squared(a.1, px, py)
                    .partial_cmp(&centroid_distance_squared(b.1, px, py))
                    .unwrap()
            })
            .unwrap()
            .0;
        assert_eq!(
            centroid_distance_squared(&nodes[found[0].index], px, py),
            centroid_distance_squared(&nodes[best], px, py)
        );
        assert_eq!(found[0].offset, found[0].index);
    }
}

#[test]
fn nearest_over_http_layout_gives_a_feature_range() {
    let mut nodes = Vec::new();
    for i in 0..5u64 {
        let x = i as f64 * 2.0;
        let mut n = bounds(x, 0.0, x + 1.0, 1.0);
        n.offset = 100 * i;
        nodes.push(n);
    }
    let extent = calc_extent(&nodes);
    let tree = PackedRTree::build(&nodes, &extent, 2).unwrap();
    let all = tree.node_items();
    let run_http = |x: f64, y: f64| {
        let mut search = NearestSearch::new(5, 2, Layout::Http);
        while let Some((first, count)) = search.next_request() {
            let run: Vec<NodeItem> = all[first..first + count].to_vec();
            let dists = distances(&run, x, y);
            search.feed(&run, &dists).unwrap();
        }
        search
            .into_http_results(1000)
            .into_iter()
            .map(|r| (r.range.start(), r.range.end()))
            .collect::<Vec<_>>()
    };
    assert_eq!(run_http(2.5, 0.5), vec![(1100, Some(1200))]);
    assert_eq!(run_http(100.0, 0.5), vec![(1400, None)]);
}

#[test]
fn nearest_steps_through_a_single_leaf_tree() {
    let mut search = NearestSearch::new(1, 2, Layout::Tree);
    let (first, count) = search.next_request().unwrap();
    assert_eq!((first, count), (0, 1));
    // The root is farther than nothing: feeding it plans its only leaf.
    let root = bounds(0.0, 0.0, 1.0, 1.0);
    let mut leaf = root;
    leaf.offset = 7;
    let mut root_with_child = root;
    root_with_child.offset = 1;
    search.feed(&vec![root_with_child], &vec![(0.0f64.to_bits(), 0.5f64.to_bits())]).unwrap();
    let (first, count) = search.next_request().unwrap();
    assert_eq!((first, count), (1, 1));
    search.feed(&vec![leaf], &vec![(0.0f64.to_bits(), 0.5f64.to_bits())]).unwrap();
    assert!(search.next_request().is_none());
    let r = search.into_results();
    assert_eq!(r.len(), 1);
    assert_eq!((r[0].index, r[0].offset), (0, 7));
}

#[test]
fn nearest_over_http_closes_the_range_of_a_leaf_that_is_not_last() {
    let mut nodes = Vec::new();
    for (b, off) in [
        ((0.0, 0.0, 100.0, 5.0), 0u64),
        ((0.0, 0.0, 1.0, 1.0), 10),
        ((5.0, 5.0, 6.0, 6.0), 20),
        ((20.0, 20.0, 21.0, 21.0), 30),
    ] {
        let mut n = bounds(b.0, b.1, b.2, b.3);
        n.offset = off;
        nodes.push(n);
    }
    let extent = calc_extent(&nodes);
    let tree = PackedRTree::build(&nodes, &extent, 2).unwrap();
    let all = tree.node_items();
    let (x, y) = (5.5, 4.9);
    let mut search = NearestSearch::new(4, 2, Layout::Http);
    while let Some((first, count)) = search.next_request() {
        let run: Vec<NodeItem> = all[first..first + count].to_vec();
        let dists = distances(&run, x, y);
        search.feed(&run, &dists).unwrap();
    }
    // Seven nodes: the features start at byte 280.
    let found: Vec<(usize, Option<usize>)> = search
        .into_http_results(280)
        .into_iter()
        .map(|r| (r.range.start(), r.range.end()))
        .collect();
    assert_eq!(found, vec![(300, Some(310))]);
}
