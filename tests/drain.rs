use heaps::{drain_sorted, BinaryHeap, BinomialHeap, Heap, HeapIntoIter};

#[test]
fn drain_binary_heap_sorted() {
    let mut h = BinaryHeap::<i32>::new();
    h.add(3);
    h.add(4);
    h.add(2);
    assert_eq!(drain_sorted(h), vec![2, 3, 4]);
}

#[test]
fn drain_both_heaps_agree() {
    let input = [17u64, 3, 99, 3, 0, 45, 12, 8, 61, 5, 5, 27, 1, 80, 33, 2, 14];
    let mut a = BinaryHeap::<u64>::new();
    let mut b = BinomialHeap::<u64>::new();
    for &x in input.iter() {
        a.add(x);
        b.add(x);
    }
    let da = drain_sorted(a);
    let db = drain_sorted(b);
    let mut expected = input.to_vec();
    expected.sort();
    assert_eq!(da, expected);
    assert_eq!(db, expected);
}

#[test]
fn drain_empty_heaps() {
    assert!(drain_sorted(BinaryHeap::<i32>::new()).is_empty());
    assert!(drain_sorted(BinomialHeap::<i32>::new()).is_empty());
}

#[test]
fn heap_into_iter_yields_ascending() {
    let mut h = BinomialHeap::<usize>::new();
    for x in [6usize, 2, 9, 4] {
        h.add(x);
    }
    let mut it = HeapIntoIter::new(h);
    assert_eq!(it.next(), Some(2usize));
    assert_eq!(it.next(), Some(4usize));
    assert_eq!(it.next(), Some(6usize));
    assert_eq!(it.next(), Some(9usize));
    assert_eq!(it.next::<usize>(), None);
}
