use buffer_cache::hashing::{BufferHasher, BuildBufferHasher};

#[test]
fn hasher_folds_byte_sum_below_positions() {
    let mut h = BufferHasher::new(10);
    assert_eq!(h.finish(), 0);
    h.write(&vec![1u8, 2, 3]);
    assert_eq!(h.finish(), 6);
    h.write(&vec![200u8, 200]);
    assert_eq!(h.finish(), 0);
    h.write(&vec![]);
    assert_eq!(h.finish(), 0);
}

#[test]
fn hasher_replaces_rather_than_accumulates() {
    let mut h = BufferHasher::new(100);
    h.write(&vec![50u8]);
    assert_eq!(h.finish(), 50);
    h.write(&vec![7u8]);
    assert_eq!(h.finish(), 7);
}

#[test]
fn builder_hands_out_fresh_hashers() {
    let builder = BuildBufferHasher { positions: 7 };
    let mut h = builder.build_hasher();
    assert_eq!(h.finish(), 0);
    h.write(&vec![10u8]);
    assert_eq!(h.finish(), 3);
    let h2 = builder.build_hasher();
    assert_eq!(h2.finish(), 0);
}
