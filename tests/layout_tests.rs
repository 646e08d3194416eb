use rtree_performance::hilbert::Hilbert;
use rtree_performance::omt::{cmp_x, cmp_y, partition_omt, partition_to_chunks, total_cmp};
use std::cmp::Ordering;
use rtree_performance::utils::{calculate_level_indices, copy_into_slice, divup, rectangles_from_coordinates};
use rtree_performance::{Coordinate, Rectangle};

#[test]
fn level_indices_of_small_trees() {
    assert_eq!(calculate_level_indices(4, 8), vec![0, 8, 12]);
    assert_eq!(calculate_level_indices(16, 100), vec![0, 112, 128]);
    assert_eq!(calculate_level_indices(2, 1), vec![0]);
    assert_eq!(calculate_level_indices(2, 0), Vec::<usize>::new());
    assert_eq!(calculate_level_indices(2, 5), vec![0, 6, 10, 12]);
}

#[test]
fn divup_rounds_up() {
    assert_eq!(divup(0, 4), 0);
    assert_eq!(divup(8, 4), 2);
    assert_eq!(divup(9, 4), 3);
    assert_eq!(divup(usize::MAX, 2), usize::MAX / 2 + 1);
}

#[test]
fn copy_into_slice_overwrites_a_window() {
    let mut v = vec![0, 0, 0, 0, 0];
    copy_into_slice(&mut v, 1, &[7, 8]);
    assert_eq!(v, vec![0, 7, 8, 0, 0]);
}

#[test]
fn rectangles_between_consecutive_points() {
    let coords = vec![Coordinate::new(0, 0), Coordinate::new(3, -1), Coordinate::new(1, 5)];
    let rects = rectangles_from_coordinates(&coords);
    assert_eq!(rects, vec![
        Rectangle { x_min: 0, y_min: -1, x_max: 3, y_max: 0 },
        Rectangle { x_min: 1, y_min: -1, x_max: 3, y_max: 5 },
    ]);
    assert!(rectangles_from_coordinates(&[]).is_empty());
}

#[test]
fn rectangle_algebra() {
    let a = Rectangle::new(Coordinate::new(0, 0), Coordinate::new(4, 4));
    let b = Rectangle::new(Coordinate::new(4, 4), Coordinate::new(6, 5));
    let c = Rectangle::new(Coordinate::new(1, 1), Coordinate::new(2, 2));
    assert!(a.intersects(b));
    assert!(a.contains(c));
    assert!(!c.contains(a));
    assert!(!a.contains(b));
    assert_eq!(a.merge(b), Rectangle { x_min: 0, y_min: 0, x_max: 6, y_max: 5 });
    let e = Rectangle::new_empty();
    assert!(e.is_empty());
    assert!(!a.intersects(e));
    assert!(!a.contains(e));
    assert_eq!(e.merge(a), a);
    assert_eq!(a.merge(e), a);
    assert_eq!(e, Rectangle { x_min: 3, y_min: 0, x_max: 1, y_max: 0 });
    let m = Rectangle::new(Coordinate::new(-3, -4), Coordinate::new(4, 3)).center();
    assert_eq!((m.x, m.y), (0, -1));
    let mut x = a;
    x.expand(Coordinate::new(10, -2));
    assert_eq!(x, Rectangle { x_min: 0, y_min: -2, x_max: 10, y_max: 4 });
    assert_eq!(Rectangle::of(&[Coordinate::new(1, 2), Coordinate::new(-1, 7)]), Rectangle { x_min: -1, y_min: 2, x_max: 1, y_max: 7 });
}

#[test]
fn hilbert_ranks() {
    let h = Hilbert::new(Rectangle { x_min: 0, y_min: 0, x_max: 65535, y_max: 65535 });
    assert_eq!(h.hilbert(Coordinate::new(0, 0)), 0);
    assert_eq!(h.hilbert(Coordinate::new(1, 0)), 1);
    assert_eq!(h.hilbert(Coordinate::new(1, 1)), 2);
    assert_eq!(h.hilbert(Coordinate::new(0, 1)), 3);
    assert_eq!(h.hilbert(Coordinate::new(65535, 0)), 4294967295);
    assert_eq!(h.hilbert(Coordinate::new(32768, 32768)), 2147483648);
    assert_eq!(h.hilbert(Coordinate::new(12345, 54321)), 1555040834);
    let small = Hilbert::new(Rectangle { x_min: -10, y_min: -10, x_max: 10, y_max: 10 });
    assert_eq!(small.hilbert(Coordinate::new(-50, -50)), 0);
    assert_eq!(small.hilbert(Coordinate::new(10, -10)), 4294967295);
}

fn make_grid_rects(sqrt_num: usize) -> Vec<(usize, Rectangle)> {
    let mut rects = Vec::with_capacity(sqrt_num * sqrt_num);
    let mut a = 0;
    for i in 0..sqrt_num {
        for j in 0..sqrt_num {
            let p = Coordinate::new(i as i64, j as i64);
            rects.push((a, Rectangle::new(p, p)));
            a += 1;
        }
    }
    rects
}

#[test]
fn test_partition_omt() {
    let mut rects = make_grid_rects(5);
    let len = rects.len();
    let chunk_size = partition_omt(&mut rects, 0, len, 16);
    // max(16, ceil(25 / 16)): 25 items make stripes of 64, so one stripe.
    assert_eq!(chunk_size, 16);
    let mut ids: Vec<usize> = rects.iter().map(|e| e.0).collect();
    ids.sort();
    assert_eq!(ids, (0..25).collect::<Vec<usize>>());
    // The first 16 items (one tile) are the 16 lowest by y.
    assert!(rects[..16].iter().all(|e| e.1.y_min <= 3));
    assert!(rects[16..].iter().all(|e| e.1.y_min >= 3));
}

#[test]
fn partition_omt_splits_stripes_by_x() {
    let mut rects = make_grid_rects(20);
    let len = rects.len();
    let chunk_size = partition_omt(&mut rects, 0, len, 16);
    assert_eq!(chunk_size, 25);
    for s in 0..3 {
        let this_max = rects[s * 100..(s + 1) * 100].iter().map(|e| e.1.x_min).max().unwrap();
        let next_min = rects[(s + 1) * 100..].iter().map(|e| e.1.x_min).min().unwrap();
        assert!(this_max <= next_min);
    }
}

#[test]
fn center_comparators() {
    let a = (0, Rectangle { x_min: 0, y_min: 10, x_max: 2, y_max: 12 });
    let b = (1, Rectangle { x_min: 1, y_min: 0, x_max: 3, y_max: 2 });
    let e = (2, Rectangle::new_empty());
    assert_eq!(cmp_x(&a, &b), Ordering::Less);
    assert_eq!(cmp_y(&a, &b), Ordering::Greater);
    assert_eq!(cmp_x(&a, &a), Ordering::Equal);
    assert_eq!(cmp_x(&e, &b), Ordering::Greater);
    assert_eq!(cmp_y(&b, &e), Ordering::Less);
    assert_eq!(total_cmp(-5, 7), Ordering::Less);
}

#[test]
fn chunks_are_ordered_by_key() {
    let mut rects: Vec<(usize, Rectangle)> = (0..50)
        .map(|i| {
            let x = ((i * 37) % 50) as i64;
            (i, Rectangle { x_min: x, y_min: 0, x_max: x, y_max: 0 })
        })
        .collect();
    partition_to_chunks(8, &mut rects, 0, 50, true);
    for c in 0..6 {
        let this_max = rects[c * 8..(c + 1) * 8].iter().map(|e| e.1.x_min).max().unwrap();
        let next_min = rects[(c + 1) * 8..].iter().map(|e| e.1.x_min).min().unwrap();
        assert!(this_max <= next_min);
    }
}
