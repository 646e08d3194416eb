use rtree_performance::{Coordinate, Rectangle, SegRTree};

fn rect(x1: i64, y1: i64, x2: i64, y2: i64) -> Rectangle {
    Rectangle::new(Coordinate::new(x1, y1), Coordinate::new(x2, y2))
}

#[test]
fn test_empty_seg_rtree() {
    let r = rect(-10, -5, 1, 5);
    let tree = SegRTree::new_empty();
    assert_eq!(tree.len(), 0);
    assert_eq!(tree.height(), 0);
    assert_eq!(tree.query_rect(r), Vec::<usize>::new());
}

/// The integer key of a coordinate: order-preserving on all non-NaN values.
fn key(v: f64) -> i64 {
    let v = if v == 0.0 { 0.0 } else { v };
    let bits = v.to_bits() as i64;
    if bits < 0 {
        bits ^ i64::MAX
    } else {
        bits
    }
}

fn frect(x1: f64, y1: f64, x2: f64, y2: f64) -> Rectangle {
    Rectangle::new(Coordinate::new(key(x1), key(y1)), Coordinate::new(key(x2), key(y2)))
}

#[test]
fn test_build_tree_unsorted() {
    let degree = 4;
    let e0 = frect(7.0, 44., 8., 48.);
    let e1 = frect(25., 48., 35., 55.);
    let e2 = frect(98., 46., 99., 56.);
    let e3 = frect(58., 65., 73., 79.);
    let e4 = frect(43., 40., 44., 45.);
    let e5 = frect(97., 87., 100., 91.);
    let e6 = frect(92., 46., 108., 57.);
    let e7 = frect(7.1, 48., 10., 56.);
    let envs = vec![e0, e1, e2, e3, e4, e5, e6, e7];

    let rtree = SegRTree::new(degree, &envs);
    let query_rect = frect(43., 43., 43., 43.);

    let results = rtree.query_rect(query_rect);
    assert_eq!(results, vec![4]);
    let results = rtree.query_rect_2(query_rect);
    assert_eq!(results, vec![4]);
    assert_eq!(rtree.query_point(Coordinate::new(key(43.), key(43.))), vec![4]);
}

#[test]
fn seg_self_intersections() {
    let envs = vec![rect(0, 0, 2, 2), rect(1, 1, 3, 3), rect(5, 5, 6, 6), rect(2, 0, 2, 9)];
    let tree = SegRTree::new(2, &envs);
    let mut pairs = tree.query_self_intersections();
    pairs.sort();
    assert_eq!(pairs, vec![(0, 1), (0, 3), (1, 3)]);
    let other = SegRTree::new(3, &[rect(5, 5, 5, 5), rect(0, 0, 0, 0)]);
    let mut cross = tree.query_other_intersections(&other);
    cross.sort();
    assert_eq!(cross, vec![(0, 1), (2, 0)]);
}

#[test]
fn seg_low_high_and_envelope() {
    let envs: Vec<Rectangle> = (0..10).map(|i| rect(i, 0, i + 1, 1)).collect();
    let tree = SegRTree::new(4, &envs);
    assert_eq!(tree.height(), 3);
    assert_eq!(tree.get_low_high(0, 3), (3, 4));
    assert_eq!(tree.get_low_high(1, 2), (8, 10));
    assert_eq!(tree.get_low_high(2, 0), (0, 10));
    assert_eq!(tree.envelope(), rect(0, 0, 10, 1));
    assert_eq!(tree.degree(), 4);
    assert!(!tree.is_empty());
}
