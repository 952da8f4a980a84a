use bufpool::fixed::FixedBufPool;

#[test]
fn fixed_allocate_is_zeroed() {
    let mut p = FixedBufPool::new();
    let b = p.allocate_with_zeros(16);
    assert_eq!(b.capacity(), 16);
    assert_eq!(b.as_slice(), &[0u8; 16]);
}

#[test]
fn fixed_zero_fill_after_dirty_release() {
    let mut p = FixedBufPool::new();
    let mut b = p.allocate_with_zeros(16);
    for i in 0..16 {
        b.set(i, 0xAB);
    }
    let a = b.address();
    p.release(b);
    let z = p.allocate_with_zeros(16);
    assert_eq!(z.address(), a);
    assert_eq!(z.as_slice(), &[0u8; 16]);
}

#[test]
fn fixed_recycling_returns_same_block() {
    let mut p = FixedBufPool::new();
    let b = p.allocate_with_zeros(64);
    let a = b.address();
    p.release(b);
    let again = p.allocate_with_zeros(64);
    assert_eq!(again.address(), a);
    let other = p.allocate_with_zeros(64);
    assert_ne!(other.address(), a);
}

#[test]
fn fixed_clone_scenario() {
    let mut p = FixedBufPool::new();
    let b = p.allocate_with_zeros(64);
    let mut c = b.clone_in(&mut p);
    assert_ne!(b.address(), c.address());
    c.set(0, 0xFF);
    assert_eq!(b.get(0), 0);
    assert_eq!(c.get(0), 0xFF);
}

#[test]
fn fixed_addresses_are_aligned() {
    let mut p = FixedBufPool::with_alignment(256);
    let b1 = p.allocate_with_zeros(1);
    let b2 = p.allocate_with_zeros(512);
    let b3 = p.allocate_with_zeros(32);
    assert_eq!(b1.address() % 256, 0);
    assert_eq!(b2.address() % 256, 0);
    assert_eq!(b3.address() % 256, 0);
    assert_eq!(b1.capacity(), 1);
    assert_eq!(b2.capacity(), 512);
    assert_eq!(b3.capacity(), 32);
}

#[test]
fn fixed_packed_word_recovers_both_components() {
    let mut p = FixedBufPool::new();
    let b16 = p.allocate_with_zeros(16);
    let b4096 = p.allocate_with_zeros(4096);
    let a16 = b16.address();
    let a4096 = b4096.address();
    assert_ne!(a16, a4096);
    assert_eq!(b16.capacity(), 16);
    assert_eq!(b4096.capacity(), 4096);
    p.release(b16);
    p.release(b4096);
    let c16 = p.allocate_with_zeros(16);
    let c4096 = p.allocate_with_zeros(4096);
    assert_eq!(c16.address(), a16);
    assert_eq!(c4096.address(), a4096);
}

#[test]
fn fixed_allocate_from_data_copies() {
    let mut p = FixedBufPool::new();
    let data = [3u8, 1, 4, 1, 5, 9, 2, 6];
    let b = p.allocate_from_data(&data);
    assert_eq!(b.capacity(), 8);
    assert_eq!(b.as_slice(), &data);
}

#[test]
fn fixed_copy_from_slice_overwrites() {
    let mut p = FixedBufPool::new();
    let mut b = p.allocate_with_zeros(4);
    b.copy_from_slice(&[7, 8, 9, 10]);
    assert_eq!(b.as_slice(), &[7, 8, 9, 10]);
}

#[test]
fn fixed_compare_orders_by_bytes() {
    let mut p = FixedBufPool::new();
    let a = p.allocate_from_data(&[5, 5]);
    let b = p.allocate_from_data(&[5, 6]);
    let c = p.allocate_from_data(&[5, 5, 0, 0]);
    assert_eq!(a.compare(&b), -1);
    assert_eq!(b.compare(&a), 1);
    assert_eq!(a.compare(&a), 0);
    assert_eq!(a.compare(&c), -1);
}

#[test]
fn fixed_equals_compares_bytes() {
    let mut p = FixedBufPool::new();
    let a = p.allocate_from_data(&[1, 2, 3, 4]);
    let b = p.allocate_from_data(&[1, 2, 3, 4]);
    let c = p.allocate_from_data(&[1, 2, 3, 5]);
    assert!(a.equals(&a));
    assert!(a.equals(&b));
    assert!(!a.equals(&c));
}
