use huff::{Keyed, MinQueue};
use std::cmp::Ordering;

#[test]
fn queue_hands_out_least_key_first() {
    let mut queue: MinQueue<char> = MinQueue::new();
    queue.push(5, 'e');
    queue.push(1, 'a');
    queue.push(3, 'c');
    assert_eq!(queue.len(), 3);
    let first = queue.pop().unwrap();
    assert_eq!((first.key, first.value), (1, 'a'));
    let second = queue.pop().unwrap();
    assert_eq!((second.key, second.value), (3, 'c'));
    let third = queue.pop().unwrap();
    assert_eq!((third.key, third.value), (5, 'e'));
    assert!(queue.pop().is_none());
    assert_eq!(queue.len(), 0);
}

#[test]
fn queue_keeps_equal_keys_in_arrival_order() {
    let mut queue: MinQueue<u32> = MinQueue::new();
    queue.push(2, 10);
    queue.push(1, 20);
    queue.push(2, 30);
    queue.push(1, 40);
    queue.push(2, 50);
    let mut order = Vec::new();
    while let Some(entry) = queue.pop() {
        order.push((entry.key, entry.value));
    }
    assert_eq!(order, vec![(1, 20), (1, 40), (2, 10), (2, 30), (2, 50)]);
}

#[test]
fn keyed_compares_by_key_alone() {
    let a = Keyed { key: 3u32, value: "x" };
    let b = Keyed { key: 3u32, value: "y" };
    let c = Keyed { key: 4u32, value: "x" };
    assert!(a == b);
    assert!(a != c);
    assert!(a < c);
    assert!(c > b);
    assert_eq!(a.partial_cmp(&b), Some(Ordering::Equal));
    assert_eq!(a.partial_cmp(&c), Some(Ordering::Less));
    assert_eq!(c.partial_cmp(&a), Some(Ordering::Greater));
}

#[test]
fn keyed_clone_keeps_key_and_value() {
    let a = Keyed { key: 7u64, value: 9u8 };
    let b = a.clone();
    assert_eq!((b.key, b.value), (7, 9));
}
