use heaps::{BinomialHeap, Heap};

#[test]
fn binomial_heap_empty_gives_absence() {
    let mut h = BinomialHeap::<i32>::new();
    assert!(h.peek_min().is_none());
    assert!(h.remove_min().is_none());
    assert_eq!(h.size(), 0);
    assert!(h.is_empty());
    assert!(h.orders().is_empty());
}

#[test]
fn binomial_heap_scenario_three_adds() {
    let mut h = BinomialHeap::<i32>::new();
    h.add(3);
    h.add(4);
    h.add(2);
    assert_eq!(h.size(), 3);
    assert_eq!(*h.peek_min().unwrap(), 2);
    assert_eq!(h.remove_min(), Some(2));
    assert_eq!(h.remove_min(), Some(3));
    assert_eq!(h.remove_min(), Some(4));
    assert!(h.remove_min().is_none());
}

#[test]
fn binomial_heap_orders_follow_binary_count() {
    let mut h = BinomialHeap::<u64>::new();
    let input = [40u64, 7, 19, 3, 25, 11, 30, 1];
    for (k, &x) in input.iter().enumerate() {
        h.add(x);
        let n = k + 1;
        let expected: Vec<usize> = (0..usize::BITS as usize).filter(|b| (n >> b) & 1 == 1).collect();
        assert_eq!(h.orders(), expected);
        assert_eq!(h.size(), n);
    }
    let mut h5 = BinomialHeap::<u64>::new();
    for x in 0..5u64 {
        h5.add(x);
    }
    assert_eq!(h5.orders(), vec![0, 2]);
}

#[test]
fn binomial_heap_orders_after_removals() {
    let mut h = BinomialHeap::<i32>::new();
    for x in 0..13 {
        h.add(x * 7 % 13);
    }
    assert_eq!(h.orders(), vec![0, 2, 3]);
    assert_eq!(h.remove_min(), Some(0));
    assert_eq!(h.orders(), vec![2, 3]);
    assert_eq!(h.remove_min(), Some(1));
    assert_eq!(h.orders(), vec![0, 1, 3]);
}

#[test]
fn binomial_heap_equal_keys() {
    let mut h = BinomialHeap::<u32>::new();
    for x in [5u32, 1, 5, 1, 3, 3] {
        h.add(x);
    }
    let mut out = Vec::new();
    while let Some(x) = h.remove_min() {
        out.push(x);
    }
    assert_eq!(out, vec![1, 1, 3, 3, 5, 5]);
}

#[test]
fn binomial_heap_peek_tracks_minimum() {
    let mut h = BinomialHeap::<i64>::new();
    let input = [9i64, -4, 12, 0, -4, 33, 7, -20, 15, 2, 8, 100, -1];
    let mut seen: Vec<i64> = Vec::new();
    for &x in input.iter() {
        h.add(x);
        seen.push(x);
        assert_eq!(*h.peek_min().unwrap(), *seen.iter().min().unwrap());
        assert_eq!(h.size(), seen.len());
        assert!(!h.is_empty());
    }
    seen.sort();
    for (k, &expected) in seen.iter().enumerate() {
        assert_eq!(*h.peek_min().unwrap(), expected);
        assert_eq!(h.remove_min(), Some(expected));
        assert_eq!(h.size(), seen.len() - k - 1);
    }
    assert!(h.is_empty());
}
