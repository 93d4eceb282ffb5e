use buffer_cache::buffer::{BufferHashQueue, BufferHeader, BufferStatus, FreeList};
use buffer_cache::disk::DiskDriver;

fn header(device_num: u64, block_num: u64, status: BufferStatus) -> BufferHeader {
    BufferHeader { device_num, block_num, status, data: None }
}

#[test]
fn header_getters_report_identity() {
    let h = header(3, 9, BufferStatus::Unlocked);
    assert_eq!(h.get_device_num(), 3);
    assert_eq!(h.get_block_num(), 9);
    assert_eq!(h.get_nums(), (3, 9));
}

#[test]
fn default_header_is_empty() {
    let h = BufferHeader::default();
    assert_eq!(h.get_nums(), (0, 0));
    assert_eq!(h.status, BufferStatus::Empty);
    assert!(h.data.is_none());
}

#[test]
fn free_list_pops_least_recently_released() {
    let pool = vec![
        header(1, 1, BufferStatus::Unlocked),
        header(2, 2, BufferStatus::Unlocked),
        header(3, 3, BufferStatus::Unlocked),
    ];
    let mut fl = FreeList::new();
    assert!(fl.is_empty());
    fl.push(&pool, 2);
    fl.push(&pool, 0);
    fl.push(&pool, 1);
    assert!(!fl.is_empty());
    assert_eq!(fl.pop(), Some(2));
    assert_eq!(fl.pop(), Some(0));
    assert_eq!(fl.pop(), Some(1));
    assert_eq!(fl.pop(), None);
}

#[test]
fn free_list_removes_by_identity() {
    let pool = vec![
        header(1, 1, BufferStatus::Unlocked),
        header(2, 2, BufferStatus::Unlocked),
        header(3, 3, BufferStatus::Unlocked),
    ];
    let mut fl = FreeList::new();
    fl.push(&pool, 0);
    fl.push(&pool, 1);
    fl.push(&pool, 2);
    fl.remove(&pool, (2, 2));
    assert_eq!(fl.my_list, vec![0usize, 2]);
    // removing an absent identity is a no-op
    fl.remove(&pool, (9, 9));
    assert_eq!(fl.my_list, vec![0usize, 2]);
}

#[test]
fn free_list_remove_skips_empty_headers() {
    // an Empty header's identity fields are meaningless and never match
    let pool = vec![header(1, 1, BufferStatus::Empty), header(1, 1, BufferStatus::Unlocked)];
    let mut fl = FreeList::new();
    fl.push(&pool, 0);
    fl.push(&pool, 1);
    fl.remove(&pool, (1, 1));
    assert_eq!(fl.my_list, vec![0usize]);
}

#[test]
fn hash_queue_files_entries_by_identity_sum() {
    let pool = vec![header(1, 1, BufferStatus::Unlocked), header(1, 5, BufferStatus::Unlocked)];
    let mut hq = BufferHashQueue::new(4);
    assert_eq!(hq.hash_nums(1, 1), 2);
    assert_eq!(hq.hash_nums(1, 5), 2);
    assert_eq!(hq.hash_nums(3, 5), 0);
    assert_eq!(hq.hash_header(&pool[0]), 2);
    hq.add_buffer(&pool, 0);
    hq.add_buffer(&pool, 1);
    // both identities hash to the same queue and are found by a chain scan
    assert_eq!(hq.get_buffer(&pool, 1, 1), Some(0));
    assert_eq!(hq.get_buffer(&pool, 1, 5), Some(1));
    assert_eq!(hq.get_buffer(&pool, 2, 0), None);
    hq.remove(&pool, 1, 1);
    assert_eq!(hq.get_buffer(&pool, 1, 1), None);
    assert_eq!(hq.get_buffer(&pool, 1, 5), Some(1));
}

#[test]
fn hash_is_total_on_extreme_identities() {
    let hq = BufferHashQueue::new(4);
    // (2^64 - 1) + (2^64 - 1) = 2^65 - 2, and that sum modulo 4 is 2
    assert_eq!(hq.hash_nums(u64::MAX, u64::MAX), 2);
}

#[test]
fn disk_driver_logs_every_write_in_order() {
    let mut disk = DiskDriver::new();
    assert_eq!(disk.write_count(), 0);
    disk.write(&vec![1u8, 2]);
    disk.write(&vec![]);
    disk.write(&vec![3u8]);
    assert_eq!(disk.write_count(), 3);
    assert_eq!(disk.get_write(0), &vec![1u8, 2]);
    assert_eq!(disk.get_write(1), &Vec::<u8>::new());
    assert_eq!(disk.get_write(2), &vec![3u8]);
}
