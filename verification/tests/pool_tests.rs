use bufpool::pool::BufPool;

#[test]
fn capacity_rounding_exact_values() {
    let mut p = BufPool::new();
    assert_eq!(p.allocate(0).capacity(), 1);
    assert_eq!(p.allocate(1).capacity(), 1);
    assert_eq!(p.allocate(2).capacity(), 2);
    assert_eq!(p.allocate(3).capacity(), 4);
    assert_eq!(p.allocate(4).capacity(), 4);
    assert_eq!(p.allocate(10).capacity(), 16);
    assert_eq!(p.allocate(1023).capacity(), 1024);
    assert_eq!(p.allocate(1024).capacity(), 1024);
    assert_eq!(p.allocate(1025).capacity(), 2048);
}

#[test]
fn allocate_starts_empty() {
    let mut p = BufPool::new();
    let b = p.allocate(100);
    assert_eq!(b.len(), 0);
    assert_eq!(b.capacity(), 128);
    assert_eq!(b.as_slice(), &[] as &[u8]);
}

#[test]
fn alignment_scenario_rounding_and_reuse() {
    let mut p = BufPool::with_alignment(128);
    let b = p.allocate(10);
    assert_eq!(b.capacity(), 16);
    let a1 = b.address();
    p.release(b);
    let b2 = p.allocate(16);
    assert_eq!(b2.capacity(), 16);
    assert_eq!(b2.address(), a1);
    let b3 = p.allocate(17);
    assert_eq!(b3.capacity(), 32);
    assert_ne!(b3.address(), a1);
}

#[test]
fn recycling_returns_same_block() {
    let mut p = BufPool::new();
    let mut b = p.allocate(32);
    b.extend_from_slice(&[1, 2, 3]);
    let a = b.address();
    p.release(b);
    let again = p.allocate(32);
    assert_eq!(again.address(), a);
    assert_eq!(again.len(), 0);
}

#[test]
fn recycling_is_fifo_per_class() {
    let mut p = BufPool::new();
    let b1 = p.allocate(8);
    let b2 = p.allocate(8);
    let a1 = b1.address();
    let a2 = b2.address();
    assert_ne!(a1, a2);
    p.release(b1);
    p.release(b2);
    let c1 = p.allocate(8);
    let c2 = p.allocate(8);
    assert_eq!(c1.address(), a1);
    assert_eq!(c2.address(), a2);
}

#[test]
fn size_classes_are_independent() {
    let mut p = BufPool::new();
    let b8 = p.allocate(8);
    let a8 = b8.address();
    p.release(b8);
    let b16 = p.allocate(16);
    assert_ne!(b16.address(), a8);
}

#[test]
fn zero_fill_after_dirty_release() {
    let mut p = BufPool::new();
    let mut b = p.allocate(8);
    b.extend_from_slice(&[0xAA; 8]);
    let a = b.address();
    p.release(b);
    let z = p.allocate_with_zeros(8);
    assert_eq!(z.address(), a);
    assert_eq!(z.len(), 8);
    assert_eq!(z.as_slice(), &[0u8; 8]);
}

#[test]
fn allocate_with_zeros_fresh() {
    let mut p = BufPool::new();
    let z = p.allocate_with_zeros(5);
    assert_eq!(z.len(), 5);
    assert_eq!(z.capacity(), 8);
    assert_eq!(z.as_slice(), &[0u8; 5]);
}

#[test]
fn allocate_with_fill_value() {
    let mut p = BufPool::new();
    let b = p.allocate_with_fill(0x5C, 6);
    assert_eq!(b.len(), 6);
    assert_eq!(b.as_slice(), &[0x5C; 6]);
}

#[test]
fn allocate_from_data_copies() {
    let mut p = BufPool::new();
    let b = p.allocate_from_data(&[9, 8, 7]);
    assert_eq!(b.len(), 3);
    assert_eq!(b.capacity(), 4);
    assert_eq!(b.as_slice(), &[9, 8, 7]);
}

#[test]
fn allocate_from_iter_capacity_request() {
    let mut p = BufPool::new();
    let b = p.allocate_from_iter(&[1, 2], 9);
    assert_eq!(b.len(), 2);
    assert_eq!(b.capacity(), 16);
    assert_eq!(b.as_slice(), &[1, 2]);
}

#[test]
fn allocate_uninitialised_full_length() {
    let mut p = BufPool::new();
    let b = p.allocate_uninitialised(12);
    assert_eq!(b.capacity(), 16);
    assert_eq!(b.len(), 16);
    assert_eq!(b.len(), b.capacity());
}

#[test]
fn clone_does_not_alias() {
    let mut p = BufPool::new();
    let mut b = p.allocate_from_data(&[1, 2, 3, 4]);
    let mut c = b.clone_in(&mut p);
    assert_ne!(b.address(), c.address());
    assert_eq!(c.as_slice(), &[1, 2, 3, 4]);
    c.set(0, 0xFF);
    assert_eq!(b.as_slice(), &[1, 2, 3, 4]);
    b.set(1, 0x77);
    assert_eq!(c.as_slice(), &[0xFF, 2, 3, 4]);
}

#[test]
fn released_dirty_block_not_visible_in_new_empty_buffer() {
    let mut p = BufPool::new();
    let mut b = p.allocate(4);
    b.extend_from_slice(&[1, 2, 3, 4]);
    p.release(b);
    let again = p.allocate(4);
    assert_eq!(again.as_slice(), &[] as &[u8]);
}
