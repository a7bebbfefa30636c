use flatcitybuf::{
    calc_extent, HttpRange, HttpSearch, NodeItem, PackedRTree, Query, StreamSearch,
};

fn bounds(min_x: f64, min_y: f64, max_x: f64, max_y: f64) -> NodeItem {
    NodeItem::bounds(min_x.to_bits(), min_y.to_bits(), max_x.to_bits(), max_y.to_bits())
}

fn bbox(min_x: f64, min_y: f64, max_x: f64, max_y: f64) -> Query {
    Query::BBox(min_x.to_bits(), min_y.to_bits(), max_x.to_bits(), max_y.to_bits())
}

/// Five leaves side by side along x; leaves 0 and 4 lie high, the others
/// low.  Feature `i` starts at byte `1000 * i`.
fn five_leaves() -> Vec<NodeItem> {
    let mut nodes = Vec::new();
    for i in 0..5u64 {
        let x = i as f64;
        let y = if i == 0 || i == 4 { 5.0 } else { 0.0 };
        let mut n = bounds(x, y, x + 0.5, y + 0.5);
        n.offset = 1000 * i;
        nodes.push(n);
    }
    nodes
}

/// A file: 100 bytes of header, the index, 10 bytes of attribute index.
fn file_with_index(tree: &PackedRTree) -> Vec<u8> {
    let mut file = vec![0u8; 100];
    tree.stream_write(&mut file).unwrap();
    file.extend_from_slice(&[0u8; 10]);
    file
}

fn run_http(
    file: &[u8],
    num_items: usize,
    node_size: u16,
    query: Query,
    threshold: usize,
) -> (Vec<(usize, usize)>, Vec<HttpRange>) {
    let mut search = HttpSearch::new(100, 10, num_items, node_size, query, threshold);
    let mut requests = Vec::new();
    while let Some((begin, length)) = search.next_request() {
        requests.push((begin, length));
        search.feed(&file[begin..begin + length]).unwrap();
    }
    let found = search.into_results().into_iter().map(|r| r.range).collect();
    (requests, found)
}

fn describe(r: &HttpRange) -> (usize, Option<usize>) {
    (r.start(), r.end())
}

#[test]
fn http_search_fetches_runs_and_reports_feature_ranges() {
    let nodes = five_leaves();
    let extent = calc_extent(&nodes);
    let tree = PackedRTree::build(&nodes, &extent, 2).unwrap();
    let file = file_with_index(&tree);
    // 11 nodes: the features start after the header, the index and the
    // attribute index.
    let feature_begin = 100 + 11 * 40 + 10;

    let (requests, found) = run_http(&file, 5, 2, bbox(0.0, 5.0, 4.5, 6.0), 0);
    assert_eq!(requests, vec![(100, 40), (140, 80), (220, 120), (340, 120), (500, 40)]);
    let found: Vec<_> = found.iter().map(describe).collect();
    assert_eq!(found, vec![(feature_begin, Some(feature_begin + 1000)), (feature_begin + 4000, None)]);

    // A threshold of one node's bytes lets the two leaf runs merge.
    let (requests, found) = run_http(&file, 5, 2, bbox(0.0, 5.0, 4.5, 6.0), 40);
    assert_eq!(requests, vec![(100, 40), (140, 80), (220, 120), (340, 200)]);
    let found: Vec<_> = found.iter().map(describe).collect();
    assert_eq!(found, vec![(feature_begin, Some(feature_begin + 1000)), (feature_begin + 4000, None)]);
}

#[test]
fn http_search_low_leaves() {
    let nodes = five_leaves();
    let extent = calc_extent(&nodes);
    let tree = PackedRTree::build(&nodes, &extent, 2).unwrap();
    let file = file_with_index(&tree);
    let fb = 100 + 11 * 40 + 10;
    let (requests, found) = run_http(&file, 5, 2, bbox(1.0, 0.0, 3.2, 1.0), 0);
    assert_eq!(requests, vec![(100, 40), (140, 80), (220, 80), (340, 200)]);
    let found: Vec<_> = found.iter().map(describe).collect();
    assert_eq!(
        found,
        vec![(fb + 1000, Some(fb + 2000)), (fb + 2000, Some(fb + 3000)), (fb + 3000, Some(fb + 4000))]
    );
}

#[test]
fn http_search_of_no_items_fetches_nothing() {
    let mut search = HttpSearch::new(0, 0, 0, 16, bbox(0.0, 0.0, 1.0, 1.0), 0);
    assert!(search.next_request().is_none());
    assert_eq!(search.into_results().len(), 0);
}

#[test]
fn http_search_rejects_partial_nodes() {
    let nodes = five_leaves();
    let extent = calc_extent(&nodes);
    let tree = PackedRTree::build(&nodes, &extent, 2).unwrap();
    let file = file_with_index(&tree);
    let mut search = HttpSearch::new(100, 10, 5, 2, bbox(0.0, 0.0, 9.0, 9.0), 0);
    let (begin, length) = search.next_request().unwrap();
    assert!(matches!(
        search.feed(&file[begin..begin + length - 1]),
        Err(flatcitybuf::Error::UnexpectedEof)
    ));
}

#[test]
fn stream_search_machine_matches_search() {
    let nodes = five_leaves();
    let extent = calc_extent(&nodes);
    let tree = PackedRTree::build(&nodes, &extent, 2).unwrap();
    let mut data: Vec<u8> = Vec::new();
    tree.stream_write(&mut data).unwrap();
    let q = bbox(0.0, 5.0, 4.5, 6.0);
    let mut search = StreamSearch::new(5, 2, q);
    let mut requests = Vec::new();
    while let Some((start, len)) = search.next_request() {
        requests.push((start, len));
        search.feed(&data[start * 40..(start + len) * 40]).unwrap();
    }
    let found: Vec<(usize, usize)> =
        search.into_results().iter().map(|r| (r.index, r.offset)).collect();
    assert_eq!(found, vec![(0, 0), (4, 4000)]);
    let direct: Vec<(usize, usize)> =
        tree.search(q).unwrap().iter().map(|r| (r.index, r.offset)).collect();
    assert_eq!(found, direct);
    assert_eq!(requests, vec![(0, 1), (1, 2), (3, 2), (5, 1), (6, 2), (10, 1)]);
}

#[test]
fn http_range_accessors() {
    let r = HttpRange::Range(10..25);
    assert_eq!(r.start(), 10);
    assert_eq!(r.end(), Some(25));
    assert_eq!(r.length(), Some(15));
    let open = r.clone().with_end(None);
    assert_eq!(open.start(), 10);
    assert_eq!(open.end(), None);
    assert_eq!(open.length(), None);
    let closed = open.with_end(Some(12));
    assert_eq!(closed.length(), Some(2));
}
