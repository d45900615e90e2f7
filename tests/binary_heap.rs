use heaps::{BinaryHeap, Heap};

#[test]
fn binary_heap_creation() {
    let mut h = BinaryHeap::<i32>::new();
    h.add(3);
    h.add(4);
    h.add(2);
    assert!(h.size() == 3);
}

#[test]
fn binary_heap_remove_min() {
    let mut h = BinaryHeap::<i32>::new();
    h.add(3);
    h.add(4);
    h.add(2);
    assert!(h.size() == 3);

    let x = h.remove_min().unwrap();
    assert!(x == 2);
    assert!(h.size() == 2);

    let y = h.remove_min().unwrap();
    assert!(y == 3);
    assert!(h.size() == 1);

    let z = h.remove_min().unwrap();
    assert!(z == 4);
    assert!(h.size() == 0);

    assert!(h.remove_min().is_none());
}

#[test]
fn binary_heap_peek_min() {
    let mut h = BinaryHeap::<i32>::new();
    h.add(3);
    h.add(4);
    h.add(2);
    assert!(h.size() == 3);

    let x = h.peek_min().unwrap();
    assert!(*x == 2);
    assert!(h.size() == 3);
}

#[test]
fn binary_heap_empty_gives_absence() {
    let mut h = BinaryHeap::<u64>::new();
    assert!(h.peek_min().is_none());
    assert!(h.remove_min().is_none());
    assert_eq!(h.size(), 0);
    assert!(h.is_empty());
}

#[test]
fn binary_heap_single_element() {
    let mut h = BinaryHeap::<i64>::new();
    h.add(-7);
    assert_eq!(*h.peek_min().unwrap(), -7);
    assert_eq!(h.remove_min(), Some(-7));
    assert!(h.is_empty());
    assert!(h.remove_min().is_none());
}

#[test]
fn binary_heap_equal_keys() {
    let mut h = BinaryHeap::<u32>::new();
    for x in [5u32, 1, 5, 1, 3] {
        h.add(x);
    }
    let mut out = Vec::new();
    while let Some(x) = h.remove_min() {
        out.push(x);
    }
    assert_eq!(out, vec![1, 1, 3, 5, 5]);
}

#[test]
fn binary_heap_peek_tracks_minimum() {
    let mut h = BinaryHeap::<i32>::new();
    let input = [9, -4, 12, 0, -4, 33, 7, -20, 15, 2, 8];
    let mut seen: Vec<i32> = Vec::new();
    for &x in input.iter() {
        h.add(x);
        seen.push(x);
        assert_eq!(*h.peek_min().unwrap(), *seen.iter().min().unwrap());
        assert_eq!(h.size(), seen.len());
    }
    seen.sort();
    for (k, &expected) in seen.iter().enumerate() {
        assert_eq!(*h.peek_min().unwrap(), expected);
        assert_eq!(h.remove_min(), Some(expected));
        assert_eq!(h.size(), seen.len() - k - 1);
    }
    assert!(h.is_empty());
}
