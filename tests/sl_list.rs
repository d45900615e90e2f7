use heaps::List;

#[test]
fn sll_create() {
    let l = List::<i32>::new();
    assert!(l.is_empty())
}

#[test]
fn sll_push() {
    let mut l = List::<i32>::new();
    l.push(5);
    assert_eq!(l.length(), 1);
    l.push(10);
    assert_eq!(l.length(), 2);
}

#[test]
fn sll_pop() {
    let mut l = List::<i32>::new();
    l.push(5);
    assert_eq!(l.length(), 1);
    l.push(10);
    assert_eq!(l.length(), 2);

    let x = l.pop();
    assert!(x.is_some());
    assert_eq!(x.unwrap(), 10);
    assert_eq!(l.length(), 1);

    let y = l.pop();
    assert!(y.is_some());
    assert_eq!(y.unwrap(), 5);
    assert_eq!(l.length(), 0);
    assert!(l.is_empty());

    let z = l.pop();
    assert!(z.is_none());
}

#[test]
fn sll_peek() {
    let mut l = List::<i32>::new();

    {
        let x = l.peek();
        assert!(x.is_none());
    }

    l.push(5);
    l.push(10);

    let y = l.peek();
    assert!(y.is_some());
    assert_eq!(*y.unwrap(), 10);
    assert_eq!(l.length(), 2);
}

#[test]
fn sll_into_iter() {
    let mut l = List::<i32>::new();
    l.push(1);
    l.push(2);
    l.push(3);
    assert_eq!(l.length(), 3);
    let mut iter = l.into_iter();

    let mut item = iter.next();
    assert!(item.is_some());
    assert_eq!(item.unwrap(), 3);

    item = iter.next();
    assert!(item.is_some());
    assert_eq!(item.unwrap(), 2);

    item = iter.next();
    assert!(item.is_some());
    assert_eq!(item.unwrap(), 1);

    item = iter.next();
    assert!(item.is_none());
}

#[test]
fn sll_reverse() {
    let mut l = List::<i32>::new();
    l.push(1);
    l.push(2);
    l.push(3);
    assert_eq!(l.length(), 3);

    l.reverse();
    assert_eq!(l.length(), 3);

    let x = l.pop();
    assert!(x.is_some());
    assert_eq!(x.unwrap(), 1);

    let y = l.pop();
    assert!(y.is_some());
    assert_eq!(y.unwrap(), 2);

    let z = l.pop();
    assert!(z.is_some());
    assert_eq!(z.unwrap(), 3);

    assert!(l.is_empty());
}

#[test]
fn sll_push_then_pop_is_lifo() {
    let mut l = List::<String>::new();
    l.push(String::from("a"));
    l.push(String::from("b"));
    assert_eq!(l.pop(), Some(String::from("b")));
    assert_eq!(l.pop(), Some(String::from("a")));
    assert_eq!(l.pop(), None);
}

#[test]
fn sll_reverse_twice_restores() {
    let mut l = List::<u8>::new();
    for x in [4u8, 8, 15, 16, 23, 42] {
        l.push(x);
    }
    l.reverse();
    l.reverse();
    let mut out = Vec::new();
    while let Some(x) = l.pop() {
        out.push(x);
    }
    assert_eq!(out, vec![42, 23, 16, 15, 8, 4]);
}

#[test]
fn sll_reverse_empty_and_single() {
    let mut l = List::<i32>::new();
    l.reverse();
    assert!(l.is_empty());
    l.push(9);
    l.reverse();
    assert_eq!(l.length(), 1);
    assert_eq!(*l.peek().unwrap(), 9);
}

#[test]
fn sll_get_reads_by_position() {
    let mut l = List::<i32>::new();
    l.push(1);
    l.push(2);
    l.push(3);
    assert_eq!(*l.get(0), 3);
    assert_eq!(*l.get(1), 2);
    assert_eq!(*l.get(2), 1);
}

#[test]
fn sll_scenario_push_iterate_reverse_pop() {
    let mut l = List::<i32>::new();
    l.push(1);
    l.push(2);
    l.push(3);
    let mut it = l.into_iter();
    assert_eq!(it.next(), Some(3));
    assert_eq!(it.next(), Some(2));
    assert_eq!(it.next(), Some(1));
    assert_eq!(it.next(), None);

    let mut l = List::<i32>::new();
    l.push(1);
    l.push(2);
    l.push(3);
    l.reverse();
    assert_eq!(l.pop(), Some(1));
    assert_eq!(l.pop(), Some(2));
    assert_eq!(l.pop(), Some(3));
}
