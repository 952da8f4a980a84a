use bufpool::pool::BufPool;

#[test]
fn push_to_capacity_then_fail_then_truncate() {
    let mut p = BufPool::new();
    let mut b = p.allocate(4);
    assert_eq!(b.capacity(), 4);
    let a = b.address();
    assert!(b.try_push(1));
    assert!(b.try_push(2));
    assert!(b.try_push(3));
    assert!(b.try_push(4));
    assert!(!b.try_push(5));
    assert_eq!(b.as_slice(), &[1, 2, 3, 4]);
    b.truncate(2);
    assert_eq!(b.len(), 2);
    assert!(b.try_push(10));
    assert!(b.try_push(11));
    assert_eq!(b.as_slice(), &[1, 2, 10, 11]);
    assert_eq!(b.capacity(), 4);
    assert_eq!(b.address(), a);
}

#[test]
fn failed_extend_leaves_buffer_unchanged() {
    let mut p = BufPool::new();
    let mut b = p.allocate(4);
    b.extend_from_slice(&[1, 2, 3]);
    assert!(!b.try_extend_from_slice(&[4, 5]));
    assert_eq!(b.as_slice(), &[1, 2, 3]);
    assert!(b.try_extend_from_slice(&[4]));
    assert_eq!(b.as_slice(), &[1, 2, 3, 4]);
}

#[test]
fn pop_returns_last_byte() {
    let mut p = BufPool::new();
    let mut b = p.allocate_from_data(&[5, 6, 7]);
    assert_eq!(b.pop(), Some(7));
    assert_eq!(b.pop(), Some(6));
    assert_eq!(b.pop(), Some(5));
    assert_eq!(b.pop(), None);
    assert_eq!(b.len(), 0);
}

#[test]
fn clear_keeps_capacity() {
    let mut p = BufPool::new();
    let mut b = p.allocate_from_data(&[1, 2, 3]);
    b.clear();
    assert_eq!(b.len(), 0);
    assert_eq!(b.capacity(), 4);
}

#[test]
fn truncate_only_shrinks() {
    let mut p = BufPool::new();
    let mut b = p.allocate_from_data(&[1, 2, 3]);
    b.truncate(10);
    assert_eq!(b.as_slice(), &[1, 2, 3]);
    b.truncate(1);
    assert_eq!(b.as_slice(), &[1]);
}

#[test]
fn set_len_exposes_stored_bytes() {
    let mut p = BufPool::new();
    let mut b = p.allocate_from_data(&[1, 2, 3]);
    b.set_len(2);
    assert_eq!(b.as_slice(), &[1, 2]);
    b.set_len(3);
    assert_eq!(b.as_slice(), &[1, 2, 3]);
}

#[test]
fn extend_from_within_copies_range() {
    let mut p = BufPool::new();
    let mut b = p.allocate(8);
    b.extend_from_slice(&[1, 2, 3, 4]);
    b.extend_from_within(1, 3);
    assert_eq!(b.as_slice(), &[1, 2, 3, 4, 2, 3]);
}

#[test]
fn append_moves_bytes_and_clears_source() {
    let mut p = BufPool::new();
    let mut a = p.allocate(8);
    a.extend_from_slice(&[1, 2]);
    let mut b = p.allocate_from_data(&[3, 4]);
    a.append(&mut b);
    assert_eq!(a.as_slice(), &[1, 2, 3, 4]);
    assert_eq!(b.len(), 0);
    assert_eq!(b.capacity(), 2);
}

#[test]
fn fill_overwrites_logical_bytes() {
    let mut p = BufPool::new();
    let mut b = p.allocate_from_data(&[1, 2, 3]);
    b.fill(9);
    assert_eq!(b.as_slice(), &[9, 9, 9]);
}

#[test]
fn get_and_set_single_bytes() {
    let mut p = BufPool::new();
    let mut b = p.allocate_from_data(&[10, 20, 30]);
    assert_eq!(b.get(1), 20);
    b.set(1, 21);
    assert_eq!(b.get(1), 21);
    assert_eq!(b.as_slice(), &[10, 21, 30]);
}

#[test]
fn compare_orders_by_contents() {
    let mut p = BufPool::new();
    let a = p.allocate_from_data(&[1, 2, 3]);
    let b = p.allocate_from_data(&[1, 2, 4]);
    let c = p.allocate_from_data(&[1, 2]);
    let d = p.allocate_from_data(&[1, 2, 3]);
    assert_eq!(a.compare(&b), -1);
    assert_eq!(b.compare(&a), 1);
    assert_eq!(c.compare(&a), -1);
    assert_eq!(a.compare(&c), 1);
    assert_eq!(a.compare(&d), 0);
}

#[test]
fn equals_compares_contents() {
    let mut p = BufPool::new();
    let a = p.allocate_from_data(&[1, 2, 3]);
    let b = p.allocate_from_data(&[1, 2, 3]);
    let c = p.allocate_from_data(&[1, 2, 4]);
    let d = p.allocate_from_data(&[1, 2]);
    assert!(a.equals(&b));
    assert!(a.equals(&a));
    assert!(!a.equals(&c));
    assert!(!a.equals(&d));
}
