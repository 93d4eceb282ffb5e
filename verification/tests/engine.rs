use buffer_cache::buffer::{BufferStatus, BufferSystem, GetBlockOutcome};

fn acquire(sys: &mut BufferSystem, device_num: u64, block_num: u64) -> usize {
    match sys.get_block(device_num, block_num) {
        GetBlockOutcome::Acquired(s) => s,
        other => panic!("expected to acquire a buffer, got {:?}", other),
    }
}

#[test]
fn acquires_of_distinct_blocks_use_distinct_buffers() {
    let mut sys = BufferSystem::new(4, 3);
    let a = acquire(&mut sys, 1, 1);
    let b = acquire(&mut sys, 2, 2);
    assert_ne!(a, b);
    assert_eq!(sys.get_header(a).2, BufferStatus::Locked);
    assert_eq!(sys.get_header(b).2, BufferStatus::Locked);
}

#[test]
fn locked_buffer_never_on_free_list() {
    let mut sys = BufferSystem::new(4, 3);
    let a = acquire(&mut sys, 1, 1);
    assert!(!sys.free_list.my_list.contains(&a));
    sys.release(a, false);
    assert!(sys.free_list.my_list.contains(&a));
}

#[test]
fn clean_reacquire_preserves_payload() {
    let mut sys = BufferSystem::new(4, 2);
    let a = acquire(&mut sys, 1, 1);
    sys.set_data(a, vec![1u8, 2, 3]);
    sys.release(a, false);
    let a2 = acquire(&mut sys, 1, 1);
    assert_eq!(a2, a);
    assert_eq!(sys.get_data(a2), &Some(vec![1u8, 2, 3]));
    assert_eq!(sys.disk_write_count(), 0);
}

#[test]
fn scenario_pool_of_two_clean_eviction() {
    let mut sys = BufferSystem::new(4, 2);
    let a = acquire(&mut sys, 1, 1);
    let b = acquire(&mut sys, 1, 2);
    assert_ne!(a, b);
    assert_eq!(sys.get_header(a).2, BufferStatus::Locked);
    assert_eq!(sys.get_header(b).2, BufferStatus::Locked);
    // pool exhausted, free list empty: the caller must wait
    assert_eq!(sys.get_block(2, 5), GetBlockOutcome::WaitForAnyBuffer);
    sys.release(a, false);
    // the retry finds the free list non-empty and evicts A, clean, no flush
    let c = acquire(&mut sys, 2, 5);
    assert_eq!(c, a);
    assert_eq!(sys.get_header(c), (2, 5, BufferStatus::Locked));
    assert_eq!(sys.disk_write_count(), 0);
}

#[test]
fn scenario_dirty_release_then_eviction_flushes_once() {
    let mut sys = BufferSystem::new(4, 2);
    let a = acquire(&mut sys, 1, 1);
    let b = acquire(&mut sys, 1, 2);
    sys.set_data(b, vec![7u8, 8, 9]);
    sys.release(b, true);
    assert_eq!(sys.get_header(b).2, BufferStatus::DelayedWriteToDisk);
    sys.release(a, false);
    // free list is [B, A]: B is dirty, so it is flushed exactly once and
    // rotated back; A is the clean victim that gets re-keyed
    let c = acquire(&mut sys, 3, 3);
    assert_eq!(c, a);
    assert_eq!(sys.disk_write_count(), 1);
    assert_eq!(sys.disk_write_at(0), &vec![7u8, 8, 9]);
    // B is clean again and still caches its block with the data intact
    let b2 = acquire(&mut sys, 1, 2);
    assert_eq!(b2, b);
    assert_eq!(sys.get_data(b2), &Some(vec![7u8, 8, 9]));
    assert_eq!(sys.disk_write_count(), 1);
}

#[test]
fn single_buffer_dirty_rotation_flushes_before_reuse() {
    let mut sys = BufferSystem::new(4, 1);
    let a = acquire(&mut sys, 1, 1);
    sys.set_data(a, vec![42u8]);
    sys.release(a, true);
    let c = acquire(&mut sys, 2, 2);
    assert_eq!(c, a);
    assert_eq!(sys.disk_write_count(), 1);
    assert_eq!(sys.disk_write_at(0), &vec![42u8]);
    assert_eq!(sys.get_header(c), (2, 2, BufferStatus::Locked));
}

#[test]
fn exhausted_acquire_waits_until_a_release() {
    let mut sys = BufferSystem::new(4, 2);
    let _a = acquire(&mut sys, 1, 1);
    let b = acquire(&mut sys, 1, 2);
    assert_eq!(sys.get_block(9, 9), GetBlockOutcome::WaitForAnyBuffer);
    // a hit on a held block waits for that block, not for any buffer
    assert_eq!(sys.get_block(1, 1), GetBlockOutcome::WaitForBlock);
    sys.release(b, false);
    let c = acquire(&mut sys, 9, 9);
    assert_eq!(c, b);
}

#[test]
fn lookup_twice_returns_same_buffer() {
    let mut sys = BufferSystem::new(4, 2);
    let a = acquire(&mut sys, 1, 1);
    let r1 = sys.hash_queue.get_buffer(&sys.pool, 1, 1);
    let r2 = sys.hash_queue.get_buffer(&sys.pool, 1, 1);
    assert_eq!(r1, Some(a));
    assert_eq!(r1, r2);
}

#[test]
fn fresh_engine_is_all_empty_and_free() {
    let sys = BufferSystem::new(1, 1);
    assert_eq!(sys.pool.len(), 1);
    assert_eq!(sys.free_list.my_list, vec![0usize]);
    assert_eq!(sys.get_header(0).2, BufferStatus::Empty);
    assert_eq!(sys.get_data(0), &None);
    assert_eq!(sys.disk_write_count(), 0);
}

#[test]
fn eviction_rekeys_out_of_old_bucket() {
    let mut sys = BufferSystem::new(4, 1);
    let a = acquire(&mut sys, 1, 1);
    sys.release(a, false);
    let a2 = acquire(&mut sys, 2, 4);
    assert_eq!(a2, a);
    // the old identity is gone from the index, the new one resolves
    assert_eq!(sys.hash_queue.get_buffer(&sys.pool, 1, 1), None);
    assert_eq!(sys.hash_queue.get_buffer(&sys.pool, 2, 4), Some(a));
}
