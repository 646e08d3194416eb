use rtree_performance::hilbert::Hilbert;
use rtree_performance::{
    Coordinate, PackedRTree, PackedRTreeAutoSimd, PackedRTreeNative, PackedRTreeUnsorted,
    PackedRTreeUnsortedTracked, RTree, Rectangle, SortedPackedRTree,
};

/// The integer key of a coordinate: order-preserving on all non-NaN values.
fn key(v: f64) -> i64 {
    let v = if v == 0.0 { 0.0 } else { v };
    let bits = v.to_bits() as i64;
    if bits < 0 {
        bits ^ i64::MAX
    } else {
        bits
    }
}

fn rect(x1: f64, y1: f64, x2: f64, y2: f64) -> Rectangle {
    Rectangle::new(Coordinate::new(key(x1), key(y1)), Coordinate::new(key(x2), key(y2)))
}

fn point(x: f64, y: f64) -> Rectangle {
    rect(x, y, x, y)
}

fn get_envelopes() -> Vec<Rectangle> {
    let coords: Vec<f64> = vec![
        8, 62, 11, 66,
        57, 17, 57, 19,
        76, 26, 79, 29,
        36, 56, 38, 56,
        92, 77, 96, 80,
        87, 70, 90, 74,
        43, 41, 47, 43,
        0, 58,  2, 62,
        76, 86, 80, 89,
        27, 13, 27, 15,
        71, 63, 75, 67,
        25,  2, 27,  2,
        87,  6, 88,  6,
        22, 90, 23, 93,
        22, 89, 22, 93,
        57, 11, 61, 13,
        61, 55, 63, 56,
        17, 85, 21, 87,
        33, 43, 37, 43,
        6,  1,  7,  3,
        80, 87, 80, 87,
        23, 50, 26, 52,
        58, 89, 58, 89,
        12, 30, 15, 34,
        32, 58, 36, 61,
        41, 84, 44, 87,
        44, 18, 44, 19,
        13, 63, 15, 67,
        52, 70, 54, 74,
        57, 59, 58, 59,
        17, 90, 20, 92,
        48, 53, 52, 56,
        2, 68, 92, 72,
        26, 52, 30, 52,
        56, 23, 57, 26,
        88, 48, 88, 48,
        66, 13, 67, 15,
        7, 82,  8, 86,
        46, 68, 50, 68,
        37, 33, 38, 36,
        6, 15,  8, 18,
        85, 36, 89, 38,
        82, 45, 84, 48,
        12,  2, 16,  3,
        26, 15, 26, 16,
        55, 23, 59, 26,
        76, 37, 79, 39,
        86, 74, 90, 77,
        16, 75, 18, 78,
        44, 18, 45, 21,
        52, 67, 54, 71,
        59, 78, 62, 78,
        24,  5, 24,  8,
        64, 80, 64, 83,
        66, 55, 70, 55,
        0, 17,  2, 19,
        15, 71, 18, 74,
        87, 57, 87, 59,
        6, 34,  7, 37,
        34, 30, 37, 32,
        51, 19, 53, 19,
        72, 51, 73, 55,
        29, 45, 30, 45,
        94, 94, 96, 95,
        7, 22, 11, 24,
        86, 45, 87, 48,
        33, 62, 34, 65,
        18, 10, 21, 14,
        64, 66, 67, 67,
        64, 25, 65, 28,
        27,  4, 31,  6,
        84,  4, 85,  5,
        48, 80, 50, 81,
        1, 61,  3, 61,
        71, 89, 74, 92,
        40, 42, 43, 43,
        27, 64, 28, 66,
        46, 26, 50, 26,
        53, 83, 57, 87,
        14, 75, 15, 79,
        31, 45, 34, 45,
        89, 84, 92, 88,
        84, 51, 85, 53,
        67, 87, 67, 89,
        39, 26, 43, 27,
        47, 61, 47, 63,
        23, 49, 25, 53,
        12,  3, 14,  5,
        16, 50, 19, 53,
        63, 80, 64, 84,
        22, 63, 22, 64,
        26, 66, 29, 66,
        2, 15,  3, 15,
        74, 77, 77, 79,
        64, 11, 68, 11,
        38,  4, 39,  8,
        83, 73, 87, 77,
        85, 52, 89, 56,
        74, 60, 76, 63,
        62, 66, 65, 67,
    ]
    .into_iter()
    .map(|v: i32| v as f64)
    .collect();
    coords.chunks(4).map(|r| rect(r[0], r[1], r[2], r[3])).collect()
}

fn find_brute_intersections(query: &Rectangle, envelopes: &[Rectangle]) -> Vec<usize> {
    envelopes
        .iter()
        .enumerate()
        .filter(|(_, e)| e.intersects(*query))
        .map(|(i, _)| i)
        .collect()
}

fn sorted(mut v: Vec<usize>) -> Vec<usize> {
    v.sort();
    v
}

fn eight_rects() -> Vec<Rectangle> {
    vec![
        rect(7.0, 44., 8., 48.),
        rect(25., 48., 35., 55.),
        rect(98., 46., 99., 56.),
        rect(58., 65., 73., 79.),
        rect(43., 40., 44., 45.),
        rect(97., 87., 100., 91.),
        rect(92., 46., 108., 57.),
        rect(7.1, 48., 10., 56.),
    ]
}

fn assert_empty_rtree(tree: &impl RTree) {
    let r = rect(-10., -5., 1., 5.);
    assert!(tree.is_empty());
    assert!(tree.envelope().is_empty());
    assert_eq!(tree.height(), 0);
    assert_eq!(tree.query_rect(&r), Vec::<usize>::new());
}

#[test]
fn test_empty_rtree() {
    assert_empty_rtree(&PackedRTreeUnsorted::new_empty());
    assert_empty_rtree(&PackedRTreeAutoSimd::new_empty());
    assert_empty_rtree(&PackedRTree::new_hilbert(2, &Vec::<Rectangle>::new()));
    assert_empty_rtree(&PackedRTree::new_omt(&Vec::<Rectangle>::new()));
    assert_empty_rtree(&SortedPackedRTree::new_hilbert(2, &Vec::<Rectangle>::new()));
    assert_empty_rtree(&SortedPackedRTree::new_omt(2, &Vec::<Rectangle>::new()));
    assert_empty_rtree(&PackedRTreeUnsorted::new(2, Vec::new()));
    assert_empty_rtree(&PackedRTreeAutoSimd::new(2, &[]));
    assert_empty_rtree(&PackedRTreeNative::new_empty());
    assert_empty_rtree(&PackedRTreeUnsortedTracked::new_empty());
}

fn assert_build_tree(rtree: &impl RTree) {
    let query_rect = point(43., 43.);
    let results = rtree.query_rect(&query_rect);
    assert_eq!(results, vec![4]);
}

#[test]
fn test_build_tree() {
    let degree = 4;
    let envs = eight_rects();
    assert_build_tree(&PackedRTreeUnsorted::new(degree, envs.clone()));
    assert_build_tree(&PackedRTreeAutoSimd::new(degree, &envs));
    assert_build_tree(&PackedRTree::new_hilbert(degree, &envs));
    assert_build_tree(&PackedRTree::new_omt(&envs));
    assert_build_tree(&SortedPackedRTree::new_hilbert(degree, &envs));
    assert_build_tree(&SortedPackedRTree::new_omt(degree, &envs));
    assert_build_tree(&PackedRTreeNative::new(degree, &envs));
    assert_build_tree(&PackedRTreeUnsortedTracked::new(degree, &envs));
}

fn assert_intersections(tree: &impl RTree, envelopes: &[Rectangle]) {
    let query_rect = rect(40., 40., 60., 60.);
    let brute_results = find_brute_intersections(&query_rect, envelopes);
    let rtree_results = sorted(tree.query_rect(&query_rect));
    assert_eq!(rtree_results, brute_results);
}

#[test]
fn test_intersection_candidates() {
    let envelopes = get_envelopes();
    assert_eq!(envelopes.len(), 100);
    assert_intersections(&PackedRTreeUnsorted::new(16, envelopes.clone()), &envelopes);
    assert_intersections(&PackedRTreeAutoSimd::new(16, &envelopes), &envelopes);
    assert_intersections(&PackedRTree::new_hilbert(16, &envelopes), &envelopes);
    assert_intersections(&PackedRTree::new_omt(&envelopes), &envelopes);
    assert_intersections(&SortedPackedRTree::new_hilbert(16, &envelopes), &envelopes);
    assert_intersections(&SortedPackedRTree::new_omt(16, &envelopes), &envelopes);
    assert_intersections(&PackedRTreeNative::new(16, &envelopes), &envelopes);
    assert_intersections(&PackedRTreeUnsortedTracked::new(16, &envelopes), &envelopes);
}

/// A small deterministic generator of coordinates in [0, 100].
struct Lcg(u64);

impl Lcg {
    fn next(&mut self) -> f64 {
        self.0 = self.0.wrapping_mul(6364136223846793005).wrapping_add(1442695040888963407);
        ((self.0 >> 33) % 10001) as f64 / 100.0
    }

    fn rect(&mut self) -> Rectangle {
        let (a, b, c, d) = (self.next(), self.next(), self.next(), self.next());
        rect(a, b, c, d)
    }
}

fn random_rects(n: usize, seed: u64) -> Vec<Rectangle> {
    let mut g = Lcg(seed);
    (0..n).map(|_| g.rect()).collect()
}

fn all_variants(degree: usize, rects: &[Rectangle]) -> Vec<Box<dyn Fn(&Rectangle) -> Vec<usize>>> {
    let a = PackedRTreeUnsorted::new(degree, rects.to_vec());
    let b = PackedRTreeAutoSimd::new(degree, rects);
    let c = PackedRTree::new_hilbert(degree, rects);
    let d = PackedRTree::new_omt(rects);
    let e = PackedRTreeNative::new(degree, rects);
    let f = PackedRTreeUnsortedTracked::new(degree, rects);
    let g = SortedPackedRTree::new_hilbert(degree, rects);
    let h = SortedPackedRTree::new_omt(degree, rects);
    vec![
        Box::new(move |q: &Rectangle| a.query_rect(q)),
        Box::new(move |q: &Rectangle| b.query_rect(q)),
        Box::new(move |q: &Rectangle| c.query_rect(q)),
        Box::new(move |q: &Rectangle| d.query_rect(q)),
        Box::new(move |q: &Rectangle| e.query_rect(q)),
        Box::new(move |q: &Rectangle| f.query_rect(q)),
        Box::new(move |q: &Rectangle| g.query_rect(q)),
        Box::new(move |q: &Rectangle| h.query_rect(q)),
    ]
}

#[test]
fn full_span_query_returns_everything() {
    let rects = random_rects(1000, 7);
    let all: Vec<usize> = (0..1000).collect();
    let q = rect(-1., -1., 101., 101.);
    for degree in [2, 4, 8, 16] {
        for query in all_variants(degree, &rects) {
            assert_eq!(sorted(query(&q)), all);
        }
    }
}

#[test]
fn random_queries_match_brute_force() {
    for (n, seed) in [(100, 1), (1000, 2)] {
        let rects = random_rects(n, seed);
        let mut g = Lcg(seed + 100);
        let queries: Vec<Rectangle> = (0..100).map(|_| g.rect()).collect();
        for degree in [2, 8, 16] {
            for query in all_variants(degree, &rects) {
                for q in &queries {
                    let found = query(q);
                    let mut dedup = sorted(found.clone());
                    dedup.dedup();
                    assert_eq!(dedup.len(), found.len());
                    assert_eq!(sorted(found), find_brute_intersections(q, &rects));
                }
            }
        }
    }
}

#[test]
fn point_in_no_rectangle() {
    let mut rects = random_rects(200, 3);
    for r in rects.iter_mut() {
        *r = rect(10. + (r.x_min % 7) as f64, 10., 20., 20.);
    }
    let q = point(0., 0.);
    for query in all_variants(8, &rects) {
        assert_eq!(query(&q), Vec::<usize>::new());
    }
}

#[test]
fn single_rect_index() {
    let rects = vec![rect(0., 0., 1., 1.)];
    for query in all_variants(4, &rects) {
        assert_eq!(query(&point(0.5, 0.5)), vec![0]);
        assert_eq!(query(&rect(2., 2., 3., 3.)), Vec::<usize>::new());
    }
    let tree = PackedRTreeUnsorted::new(4, rects.clone());
    assert_eq!(tree.height(), 1);
    assert_eq!(tree.envelope(), rects[0]);
}

#[test]
fn envelope_is_merge_of_inputs() {
    let rects = random_rects(300, 11);
    let mut merged = Rectangle::new_empty();
    for r in &rects {
        merged = merged.merge(*r);
    }
    assert_eq!(Rectangle::of(&rects), merged);
    assert_eq!(PackedRTreeUnsorted::new(8, rects.clone()).envelope(), merged);
    assert_eq!(PackedRTreeAutoSimd::new(8, &rects).envelope(), merged);
    assert_eq!(PackedRTree::new_hilbert(8, &rects).envelope(), merged);
    assert_eq!(PackedRTree::new_omt(&rects).envelope(), merged);
    assert_eq!(PackedRTreeNative::new(8, &rects).envelope(), merged);
    assert_eq!(PackedRTreeUnsortedTracked::new(8, &rects).envelope(), merged);
    assert_eq!(SortedPackedRTree::new_omt(8, &rects).envelope(), merged);
}

#[test]
fn containing_query_returns_every_item() {
    let rects = random_rects(500, 5);
    let env = PackedRTreeUnsorted::new(16, rects.clone()).envelope();
    let all: Vec<usize> = (0..500).collect();
    for query in all_variants(16, &rects) {
        assert_eq!(sorted(query(&env)), all);
    }
}

#[test]
fn empty_items_never_match() {
    let mut rects = eight_rects();
    rects[2] = Rectangle::new_empty();
    rects[5] = Rectangle { x_min: 5, y_min: 0, x_max: 3, y_max: 10 };
    let q = Rectangle { x_min: i64::MIN, y_min: i64::MIN, x_max: i64::MAX, y_max: i64::MAX };
    for query in all_variants(2, &rects) {
        assert_eq!(sorted(query(&q)), vec![0, 1, 3, 4, 6, 7]);
    }
    let empty_query = Rectangle { x_min: 50, y_min: 0, x_max: 0, y_max: 100 };
    for query in all_variants(2, &rects) {
        assert_eq!(query(&empty_query), Vec::<usize>::new());
    }
}

#[test]
fn heights_and_degrees() {
    let rects = random_rects(100, 9);
    let t = PackedRTreeUnsorted::new(16, rects.clone());
    assert_eq!(t.height(), 3);
    assert_eq!(t.degree(), 16);
    let t = PackedRTreeUnsorted::new(0, rects.clone());
    assert_eq!(t.degree(), 2);
    assert_eq!(t.height(), 8);
    let t = PackedRTreeAutoSimd::new(4, &rects);
    assert_eq!(t.height(), 5);
    assert!(!t.is_empty());
    let t = PackedRTree::new_omt(&rects);
    assert_eq!(t.degree(), 16);
}

#[test]
fn leaves_are_items_then_padding() {
    let rects = random_rects(10, 4);
    let t = PackedRTreeUnsorted::new(4, rects.clone());
    let leaves = t.leaves();
    assert_eq!(leaves.len(), 12);
    assert_eq!(&leaves[..10], &rects[..]);
    assert!(leaves[10].is_empty() && leaves[11].is_empty());
}

#[test]
fn presorts_permute_the_items() {
    let rects = random_rects(300, 21);
    for tree in [PackedRTree::new_hilbert(8, &rects), PackedRTree::new_omt(&rects)] {
        let sigma = tree.permutation();
        let leaves = tree.raw_rtree().leaves();
        let mut seen = vec![false; rects.len()];
        for (q, &i) in sigma.iter().enumerate() {
            if i < rects.len() {
                assert!(!seen[i]);
                seen[i] = true;
                assert_eq!(leaves[q], rects[i]);
            } else {
                assert!(leaves[q].is_empty());
            }
        }
        assert!(seen.iter().all(|&s| s));
        let identity: Vec<usize> = (0..rects.len()).collect();
        assert_ne!(&sigma[..rects.len()], &identity[..]);
    }
}

#[test]
fn hilbert_leaves_follow_the_curve() {
    // Points along a diagonal, given in reverse: the curve order differs.
    let rects: Vec<Rectangle> = (0..20).rev().map(|i| point(i as f64, (i * i) as f64)).collect();
    let tree = PackedRTree::new_hilbert(4, &rects);
    let sigma = tree.permutation().to_vec();
    assert_eq!(sigma.len(), 20);
    assert_ne!(sigma, (0..20).collect::<Vec<usize>>());
    let curve = Hilbert::new(Rectangle::of(&rects));
    let ranks: Vec<u64> = tree.raw_rtree().leaves()[..20].iter().map(|r| curve.hilbert(r.center())).collect();
    assert!(ranks.windows(2).all(|w| w[0] <= w[1]));
    let random = random_rects(500, 31);
    let tree = PackedRTree::new_hilbert(16, &random);
    let curve = Hilbert::new(Rectangle::of(&random));
    let ranks: Vec<u64> = tree.raw_rtree().leaves()[..500].iter().map(|r| curve.hilbert(r.center())).collect();
    assert!(ranks.windows(2).all(|w| w[0] <= w[1]));
}


#[test]
fn large_random_index_matches_brute_force() {
    let rects = random_rects(10000, 77);
    let mut g = Lcg(78);
    let queries: Vec<Rectangle> = (0..30).map(|_| g.rect()).collect();
    for query in all_variants(16, &rects) {
        for q in &queries {
            assert_eq!(sorted(query(q)), find_brute_intersections(q, &rects));
        }
    }
}

#[test]
fn simd_and_unsorted_heights_agree() {
    for n in [0usize, 1, 2, 15, 16, 17, 100, 257] {
        let rects = random_rects(n, n as u64 + 5);
        for degree in [2, 4, 8, 16] {
            let u = PackedRTreeUnsorted::new(degree, rects.clone());
            let s = PackedRTreeAutoSimd::new(degree, &rects);
            assert_eq!(s.height(), u.height());
            for i in 0..n {
                let b = s.leaf_bbox(i);
                assert_eq!(b.to_rectangle(), rects[i]);
                assert_eq!(b.0, [rects[i].x_min as i128, rects[i].y_min as i128, -(rects[i].x_max as i128), -(rects[i].y_max as i128)]);
            }
        }
    }
}

#[test]
fn presorted_heights_follow_item_count() {
    let rects = random_rects(100, 41);
    let u = PackedRTreeUnsorted::new(8, rects.clone());
    assert_eq!(PackedRTree::new_hilbert(8, &rects).height(), u.height());
    assert_eq!(SortedPackedRTree::new_hilbert(8, &rects).height(), u.height());
    assert_eq!(PackedRTree::new_hilbert(8, &rects).raw_rtree().leaves().len(), u.leaves().len());
    let empties = vec![Rectangle::new_empty(); 5];
    let t = SortedPackedRTree::new_hilbert(4, &empties);
    assert!(t.is_empty());
    assert_eq!(t.height(), 0);
}

#[test]
fn omt_padding_ends_at_node_boundaries() {
    for n in [1usize, 5, 16, 17, 40, 300, 1000] {
        let rects = random_rects(n, n as u64 + 9);
        let tree = PackedRTree::new_omt(&rects);
        let sigma = tree.permutation();
        assert!(sigma[0] < n);
        for q in 0..sigma.len() - 1 {
            if sigma[q] >= n && sigma[q + 1] < n {
                assert_eq!((q + 1) % 16, 0);
            }
        }
        let sorted_tree = SortedPackedRTree::new_omt(2, &rects);
        let sigma = sorted_tree.permutation();
        assert!(sigma[0] < n);
        let mut seen = vec![false; n];
        for q in 0..sigma.len() {
            if sigma[q] < n {
                assert!(!seen[sigma[q]]);
                seen[sigma[q]] = true;
            }
            if q + 1 < sigma.len() && sigma[q] >= n && sigma[q + 1] < n {
                assert_eq!((q + 1) % 16, 0);
            }
        }
        assert!(seen.iter().all(|&x| x));
    }
}
