use rinha::bytes::{push_i16, push_i8, push_u32, read_i16, read_i32, read_i8, read_u32};
use rinha::heap::{
    peek_max, pop_max, pop_min, push_max, push_min, sift_down_max, sift_down_min, sift_up_max,
    sift_up_min,
};
use rinha::rng::Rng;
use rinha::sort::{sort_by_i64, sort_by_u32};
use rinha::topk::{Frontier, TopK};

#[test]
fn numbers_round_trip() {
    let mut out: Vec<u8> = Vec::new();
    for v in [0u32, 1, 255, 256, 65535, 65536, 0xDEAD_BEEF, u32::MAX] {
        out.clear();
        push_u32(&mut out, v);
        assert_eq!(out, v.to_le_bytes());
        assert_eq!(read_u32(&out, 0), v);
        assert_eq!(read_i32(&out, 0), v as i32);
    }
    for v in [0i16, 1, -1, 255, 256, i16::MIN, i16::MAX] {
        out.clear();
        push_i16(&mut out, v);
        assert_eq!(out, v.to_le_bytes());
        assert_eq!(read_i16(&out, 0), v);
    }
    for v in [0i8, 1, -1, i8::MIN, i8::MAX] {
        out.clear();
        push_i8(&mut out, v);
        assert_eq!(read_i8(&out, 0), v);
    }
}

#[test]
fn heaps_give_items_in_order() {
    let items = [(5u32, 0u32), (1, 1), (9, 2), (1, 3), (7, 4), (3, 5), (9, 6)];
    let mut min = Vec::new();
    let mut max = Vec::new();
    for &x in &items {
        push_min(&mut min, x);
        push_max(&mut max, x);
    }
    assert_eq!(peek_max(&max).unwrap().0, 9);
    let mut a = Vec::new();
    while let Some(x) = pop_min(&mut min) {
        a.push(x.0);
    }
    let mut b = Vec::new();
    while let Some(x) = pop_max(&mut max) {
        b.push(x.0);
    }
    assert_eq!(a, vec![1, 1, 3, 5, 7, 9, 9]);
    b.reverse();
    assert_eq!(a, b);
    assert_eq!(pop_min(&mut min), None);
    assert_eq!(pop_max(&mut max), None);
    assert_eq!(peek_max(&max), None);
}

#[test]
fn sifting() {
    let mut h = vec![(2u32, 0u32), (3, 1), (1, 2)];
    sift_up_min(&mut h, 2);
    assert_eq!(h, vec![(1, 2), (3, 1), (2, 0)]);
    let mut h = vec![(5u32, 0u32), (3, 1), (1, 2)];
    sift_down_min(&mut h, 0);
    assert_eq!(h, vec![(1, 2), (3, 1), (5, 0)]);
    let mut h = vec![(2u32, 0u32), (1, 1), (3, 2)];
    sift_up_max(&mut h, 2);
    assert_eq!(h, vec![(3, 2), (1, 1), (2, 0)]);
    let mut h = vec![(0u32, 0u32), (3, 1), (4, 2), (9, 3)];
    sift_down_max(&mut h, 0);
    assert_eq!(h, vec![(4, 2), (3, 1), (0, 0), (9, 3)]);
    // A heap is left as it is, and so is one that has no such item.
    let mut h = vec![(1u32, 0u32), (3, 1), (2, 2)];
    sift_down_min(&mut h, 0);
    sift_up_min(&mut h, 2);
    sift_down_min(&mut h, 3);
    assert_eq!(h, vec![(1, 0), (3, 1), (2, 2)]);
    let mut none = Vec::new();
    sift_down_min(&mut none, 0);
    sift_down_max(&mut none, 7);
    sift_up_min(&mut none, 0);
    sift_up_max(&mut none, 0);
    assert!(none.is_empty());
}

#[test]
fn generator() {
    let mut r = Rng::new(0);
    assert_eq!(r.0, 1);
    // 1 -> 8193 -> 8257 -> 8257 ^ (8257 << 17)
    assert_eq!(r.next(), 8257 ^ (8257 << 17));
    let mut s = Rng::new(12345);
    for _ in 0..1000 {
        assert!(s.range(17) < 17);
        assert_ne!(s.0, 0);
    }
}

#[test]
fn sorting_is_stable() {
    let v = vec![(3u32, 0u32), (1, 1), (3, 2), (2, 3), (1, 4)];
    assert_eq!(sort_by_u32(&v), vec![(1, 1), (1, 4), (2, 3), (3, 0), (3, 2)]);
    let w = vec![(0i64, 0u32), (i64::MIN, 1), (i64::MAX, 2), (-1, 3), (0, 4)];
    assert_eq!(sort_by_i64(&w), vec![(i64::MIN, 1), (-1, 3), (0, 0), (0, 4), (i64::MAX, 2)]);
    assert!(sort_by_u32(&Vec::new()).is_empty());
}

#[test]
fn bounded_list() {
    let mut t = TopK::new(3);
    assert_eq!(t.worst_dist(), u32::MAX);
    assert!(t.try_insert((5, 1)));
    assert!(t.try_insert((3, 2)));
    assert!(t.try_insert((5, 3)));
    assert_eq!(t.worst_dist(), 5);
    assert!(!t.try_insert((5, 4)));
    assert!(t.try_insert((1, 5)));
    assert_eq!(t.len(), 3);
    assert_eq!(t.into_sorted(), vec![(1, 5), (3, 2), (5, 3)]);
    assert!(!TopK::new(0).try_insert((u32::MAX, 0)));
}

#[test]
fn frontier_gives_nearest_first() {
    let mut f = Frontier::new();
    for x in [(4u32, 9u32), (2, 7), (4, 1), (2, 3), (8, 0)] {
        f.push(x);
    }
    let mut out = Vec::new();
    while let Some(x) = f.pop() {
        out.push(x);
    }
    assert_eq!(out, vec![(2, 3), (2, 7), (4, 1), (4, 9), (8, 0)]);
}
