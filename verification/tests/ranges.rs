use block_mirror::ranges::{IoVec, RangeError, RangeGuard, RangeLockManager};
use std::collections::BTreeMap;

#[test]
fn overlaps_detects_range_starting_inside_query() {
    let mut locked = BTreeMap::new();
    locked.insert(10u64, 20u64);
    locked.insert(25u64, 30u64);
    assert!(RangeLockManager::overlaps_any(&locked, 21, 26));
}

#[test]
fn overlaps_detects_preceding_overlap() {
    let mut locked = BTreeMap::new();
    locked.insert(10u64, 25u64);
    assert!(RangeLockManager::overlaps_any(&locked, 20, 30));
}

#[test]
fn overlaps_disjoint_returns_false() {
    let mut locked = BTreeMap::new();
    locked.insert(10u64, 20u64);
    locked.insert(30u64, 40u64);
    assert!(!RangeLockManager::overlaps_any(&locked, 22, 28));
}

#[test]
fn overlaps_touching_boundary_is_not_overlap() {
    let mut locked = BTreeMap::new();
    locked.insert(10u64, 20u64);
    assert!(!RangeLockManager::overlaps_any(&locked, 20, 30));
}

#[test]
fn overlaps_nothing_in_an_empty_map() {
    let locked = BTreeMap::new();
    assert!(!RangeLockManager::overlaps_any(&locked, 0, u64::MAX));
}

#[test]
fn overlaps_ignores_ranges_from_the_end_on() {
    let mut locked = BTreeMap::new();
    locked.insert(30u64, 40u64);
    assert!(!RangeLockManager::overlaps_any(&locked, 20, 30));
    assert!(RangeLockManager::overlaps_any(&locked, 20, 31));
}

#[test]
fn overlaps_any_looks_at_every_range() {
    // The ranges here overlap each other, as held ranges never do.
    let locked = BTreeMap::from([(0u64, 100u64), (10u64, 20u64)]);
    assert!(RangeLockManager::overlaps_any(&locked, 50, 60));
    assert!(RangeLockManager::overlaps_any(&locked, 15, 60));
    assert!(!RangeLockManager::overlaps_any(&locked, 100, 110));
}

fn lock(manager: &mut RangeLockManager, offset: u64, length: u64) -> RangeGuard {
    manager.lock_range(offset, length).unwrap().unwrap()
}

#[test]
fn lock_range_refuses_an_empty_range() {
    let mut manager = RangeLockManager::new();
    assert_eq!(manager.lock_range(7, 0), Err(RangeError::ZeroLength));
}

#[test]
fn lock_range_refuses_an_end_past_64_bits() {
    let mut manager = RangeLockManager::new();
    assert_eq!(manager.lock_range(u64::MAX, 1), Err(RangeError::Overflow));
    assert!(manager.lock_range(u64::MAX - 1, 1).unwrap().is_some());
}

#[test]
fn lock_range_waits_while_a_range_overlaps() {
    let mut manager = RangeLockManager::new();
    let guard = lock(&mut manager, 100, 50);
    assert_eq!(manager.lock_range(149, 1), Ok(None));
    assert_eq!(manager.lock_range(90, 11), Ok(None));
    assert_eq!(manager.lock_range(0, 1000), Ok(None));
    assert!(manager.lock_range(150, 10).unwrap().is_some());
    assert!(manager.lock_range(90, 10).unwrap().is_some());
    manager.release(guard);
    assert!(manager.lock_range(100, 50).unwrap().is_some());
}

#[test]
fn release_frees_only_its_own_range() {
    let mut manager = RangeLockManager::new();
    let first = lock(&mut manager, 0, 10);
    let _second = lock(&mut manager, 10, 10);
    manager.release(first);
    assert_eq!(manager.lock_range(5, 10), Ok(None));
    assert!(manager.lock_range(0, 10).unwrap().is_some());
}

#[test]
fn lock_iovecs_spans_all_buffers() {
    let mut manager = RangeLockManager::new();
    let iovecs = [IoVec { iov_len: 512 }, IoVec { iov_len: 0 }, IoVec { iov_len: 1024 }];
    assert!(manager.lock_iovecs(4096, &iovecs).unwrap().is_some());
    assert_eq!(manager.lock_range(4096 + 1535, 1), Ok(None));
    assert!(manager.lock_range(4096 + 1536, 1).unwrap().is_some());
    assert!(manager.lock_range(4095, 1).unwrap().is_some());
}

#[test]
fn lock_iovecs_refuses_what_has_no_bytes() {
    let mut manager = RangeLockManager::new();
    assert_eq!(manager.lock_iovecs(0, &[]), Err(RangeError::ZeroLength));
    assert_eq!(
        manager.lock_iovecs(0, &[IoVec { iov_len: 0 }]),
        Err(RangeError::ZeroLength)
    );
}

#[test]
fn lock_iovecs_refuses_lengths_past_64_bits() {
    let mut manager = RangeLockManager::new();
    let iovecs = [IoVec { iov_len: usize::MAX }, IoVec { iov_len: 1 }];
    assert_eq!(
        manager.lock_iovecs(0, &iovecs),
        Err(RangeError::IovecLengthOverflow)
    );
}

#[test]
fn lock_iovecs_reads_a_negative_offset_as_unsigned() {
    let mut manager = RangeLockManager::new();
    assert!(manager.lock_iovecs(-2, &[IoVec { iov_len: 1 }]).unwrap().is_some());
    assert_eq!(manager.lock_range(u64::MAX - 1, 1), Ok(None));
    assert_eq!(
        manager.lock_iovecs(-2, &[IoVec { iov_len: 2 }]),
        Err(RangeError::Overflow)
    );
}

#[test]
fn range_errors_have_their_texts() {
    assert_eq!(RangeError::ZeroLength.message(), "Range length is zero");
    assert_eq!(RangeError::Overflow.message(), "Range overflow");
    assert_eq!(
        RangeError::IovecLengthOverflow.message(),
        "iovec length overflow"
    );
}
