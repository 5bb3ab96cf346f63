use aoc24rust::utils::{PointT, RectT, RingBuffer};
use std::collections::HashSet;

#[test]
fn test_point_generation() {
    let point = PointT { x: 2, y: 2 };
    let exp_1 = HashSet::from([
        PointT { x: 2, y: 3 },
        PointT { x: 3, y: 2 },
        PointT { x: 2, y: 1 },
        PointT { x: 1, y: 2 },
    ]);
    let dist_1 = point.get_points_with_distance(1);

    assert!(HashSet::from_iter(dist_1.into_iter()) == exp_1);

    let dist_2 = point.get_points_with_distance(2);
    let exp_2 = HashSet::from([
        PointT { x: 2, y: 4 },
        PointT { x: 3, y: 3 },
        PointT { x: 4, y: 2 },
        PointT { x: 3, y: 1 },
        PointT { x: 2, y: 0 },
        PointT { x: 1, y: 1 },
        PointT { x: 0, y: 2 },
        PointT { x: 1, y: 3 },
    ]);
    assert!(HashSet::from_iter(dist_2.into_iter()) == exp_2);
}

#[test]
fn test_ring_buffer() {
    let mut rb = RingBuffer::<i32, 4>::new();
    let test_values = vec![1, 2, 3, 4, 5, 6, 7];
    let items = rb.get().into_iter().collect::<Vec<i32>>();
    assert!(items.len() == 0);
    assert!(rb.len() == 0);

    rb.push(test_values[0]);
    let items = rb.get().into_iter().collect::<Vec<i32>>();
    assert!(items[..] == test_values[0..1]);
    assert!(rb.len() == 1);

    rb.push(test_values[1]);
    let items = rb.get().into_iter().collect::<Vec<i32>>();
    assert!(items[..] == test_values[0..2]);
    assert!(rb.len() == 2);

    rb.push(test_values[2]);
    let items = rb.get().into_iter().collect::<Vec<i32>>();
    assert!(items[..] == test_values[0..3]);
    assert!(rb.len() == 3);

    rb.push(test_values[3]);
    let items = rb.get().into_iter().collect::<Vec<i32>>();
    assert!(items[..] == test_values[0..4]);
    assert!(rb.len() == 4);

    rb.push(test_values[4]);
    let items = rb.get().into_iter().collect::<Vec<i32>>();
    assert!(items[..] == test_values[1..5]);
    assert!(rb.len() == 4);
}

#[test]
fn ring_buffer_wraps_more_than_once() {
    let mut rb = RingBuffer::<u8, 3>::new();
    for v in 1..=8u8 {
        rb.push(v);
    }
    assert_eq!(rb.get(), vec![6, 7, 8]);
    assert_eq!(rb.len(), 3);
}

#[test]
fn distance_is_manhattan() {
    let a = PointT { x: -3, y: 4 };
    let b = PointT { x: 2, y: -1 };
    assert_eq!(a.distance(&b), 10);
    assert_eq!(b.distance(&a), 10);
    assert_eq!(a.distance(&a), 0);
    assert!(a.get_points_with_distance(0).is_empty());
    for p in a.get_points_with_distance(3) {
        assert_eq!(p.distance(&a), 3);
    }
}

#[test]
fn point_arithmetic() {
    let a = PointT { x: 3, y: -2 };
    let b = PointT { x: 1, y: 5 };
    assert_eq!(a.add(b), PointT { x: 4, y: 3 });
    assert_eq!(a.sub(b), PointT { x: 2, y: -7 });
    assert_eq!(a.mul(3), PointT { x: 9, y: -6 });
}

#[test]
fn rect_contains_and_quadrants() {
    let r = RectT { x: 0, y: 0, width: 11, height: 7 };
    assert!(r.contains_point(&PointT { x: 0, y: 0 }));
    assert!(r.contains_point(&PointT { x: 10, y: 6 }));
    assert!(!r.contains_point(&PointT { x: 11, y: 6 }));
    assert!(!r.contains_point(&PointT { x: 3, y: -1 }));
    let q = r.get_quadrants();
    assert!(q[0] == RectT { x: 0, y: 0, width: 5, height: 3 });
    assert!(q[1] == RectT { x: 6, y: 0, width: 5, height: 3 });
    assert!(q[2] == RectT { x: 0, y: 4, width: 5, height: 3 });
    assert!(q[3] == RectT { x: 6, y: 4, width: 5, height: 3 });
}
