use evnet::ready_buffer::ReadyBuffer;

fn filled(keys: &[u64]) -> ReadyBuffer<u64> {
    let mut b = ReadyBuffer::new();
    for (i, k) in keys.iter().enumerate() {
        b.push(*k, i as u64);
    }
    b
}

#[test]
fn empty_buffer_yields_nothing() {
    let mut b: ReadyBuffer<u8> = ReadyBuffer::new();
    assert!(b.is_empty());
    assert_eq!(b.len(), 0);
    assert!(!b.has_item(&u64::MAX));
    assert!(b.peek_item(&u64::MAX).is_none());
    assert!(b.peek_max_item().is_none());
    assert!(b.pop_item(&u64::MAX).is_none());
    assert!(b.pop_until(&u64::MAX).is_none());
    assert!(b.drain_until(&u64::MAX).is_empty());
    assert!(b.drain_after(&0).is_empty());
}

#[test]
fn default_buffer_is_empty() {
    let b: ReadyBuffer<u8> = ReadyBuffer::default();
    assert!(b.is_empty());
}

#[test]
fn pop_item_respects_threshold() {
    let mut b = filled(&[5, 3, 9]);
    assert!(b.has_item(&3));
    assert!(!b.has_item(&2));
    assert!(b.pop_item(&2).is_none());
    assert_eq!(b.len(), 3);
    assert_eq!(b.pop_item(&4), Some((3, 1)));
    assert!(b.pop_item(&4).is_none());
    assert_eq!(b.pop_item(&100), Some((5, 0)));
    assert_eq!(b.pop_item(&100), Some((9, 2)));
    assert!(b.is_empty());
}

#[test]
fn successive_pops_come_in_key_order() {
    let mut b = filled(&[40, 10, 30, 20, 10, 50]);
    let mut last = 0;
    for t in [10u64, 25, 25, 35, 60, 60] {
        if let Some((k, _)) = b.pop_item(&t) {
            assert!(k <= t);
            assert!(k >= last);
            last = k;
        }
    }
}

#[test]
fn peek_does_not_remove() {
    let b = filled(&[7, 2]);
    assert_eq!(b.peek_max_item(), Some((2, &1)));
    assert_eq!(b.peek_item(&1), None);
    assert_eq!(b.peek_item(&2), Some((2, &1)));
    assert_eq!(b.len(), 2);
}

#[test]
fn pop_until_returns_last_ready() {
    let mut b = filled(&[1, 4, 6]);
    assert_eq!(b.pop_until(&5), Some((4, 1)));
    assert_eq!(b.len(), 1);
    let mut b = filled(&[1, 4, 6]);
    assert_eq!(b.pop_until(&4), Some((4, 1)));
    assert_eq!(b.pop_until(&0), None);
    assert_eq!(b.len(), 1);
}

#[test]
fn drain_until_returns_ready_items_ascending() {
    let mut b = filled(&[8, 1, 5, 3, 12]);
    let drained = b.drain_until(&5);
    let keys: Vec<u64> = drained.iter().map(|(k, _)| *k).collect();
    assert_eq!(keys, vec![1, 3, 5]);
    assert_eq!(b.len(), 2);
    assert_eq!(b.pop_item(&100), Some((8, 0)));
    assert_eq!(b.pop_item(&100), Some((12, 4)));
}

#[test]
fn drain_after_keeps_earlier_items() {
    let mut b = filled(&[8, 1, 5, 3, 12]);
    let drained = b.drain_after(&5);
    let keys: Vec<u64> = drained.iter().map(|(k, _)| *k).collect();
    assert_eq!(keys, vec![5, 8, 12]);
    assert_eq!(b.len(), 2);
    let rest = b.drain_until(&u64::MAX);
    let keys: Vec<u64> = rest.iter().map(|(k, _)| *k).collect();
    assert_eq!(keys, vec![1, 3]);
}

#[test]
fn equal_keys_are_all_released() {
    let mut b = filled(&[4, 4, 4]);
    let mut items: Vec<u64> = b.drain_until(&4).into_iter().map(|(_, v)| v).collect();
    items.sort();
    assert_eq!(items, vec![0, 1, 2]);
}

#[test]
fn largest_key_is_held_until_reached() {
    let mut b = filled(&[u64::MAX, 0]);
    assert_eq!(b.pop_item(&(u64::MAX - 1)), Some((0, 1)));
    assert!(b.pop_item(&(u64::MAX - 1)).is_none());
    assert_eq!(b.pop_item(&u64::MAX), Some((u64::MAX, 0)));
}
