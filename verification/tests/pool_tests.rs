use shm_pool::pool::Pool;

#[test]
fn new_pool_is_empty() {
    let p = Pool::new(1024);
    assert_eq!(p.capacity(), 1024);
    assert_eq!(p.free_bytes(), 1024);
    assert_eq!(p.reachable_bytes(), 0);
    assert_eq!(p.alloc_count(), 0);
}

#[test]
fn allocate_takes_contiguous_space() {
    let mut p = Pool::new(1024);
    let h = p.allocate(300).expect("fresh pool must serve 300 bytes");
    assert_eq!(p.free_bytes(), 724);
    assert_eq!(p.reachable_bytes(), 300);
    assert_eq!(p.alloc_count(), 1);
    assert!(p.read(&h).is_some());
}

#[test]
fn allocate_fails_without_contiguous_gap() {
    let mut p = Pool::new(1024);
    p.allocate(1024).expect("whole region is one gap");
    assert!(p.allocate(1).is_none());
    assert_eq!(p.free_bytes(), 0);
}

#[test]
fn release_returns_space_at_once() {
    let mut p = Pool::new(1024);
    let h = p.allocate(400).unwrap();
    assert_eq!(p.free_bytes(), 624);
    assert!(p.release(&h));
    assert_eq!(p.free_bytes(), 1024);
    assert_eq!(p.alloc_count(), 0);
    // the lease is gone: releasing again finds nothing
    assert!(!p.release(&h));
    assert!(p.read(&h).is_none());
}

#[test]
fn abandoned_space_waits_for_reclaim() {
    let mut p = Pool::new(1024);
    let a = p.allocate(300).unwrap();
    let b = p.allocate(300).unwrap();
    assert!(p.abandon(&b));
    // abandoning frees nothing by itself
    assert_eq!(p.free_bytes(), 424);
    assert_eq!(p.reachable_bytes(), 300);
    let freed = p.reclaim();
    assert_eq!(freed, 300);
    assert_eq!(p.free_bytes(), 724);
    assert_eq!(p.alloc_count(), 1);
    assert!(p.read(&a).is_some());
    assert!(p.read(&b).is_none());
}

#[test]
fn reclaim_with_no_unreachable_frees_nothing() {
    let mut p = Pool::new(1024);
    let a = p.allocate(200).unwrap();
    let b = p.allocate(200).unwrap();
    p.write(&a, &vec![7u8; 200]);
    assert_eq!(p.reclaim(), 0);
    assert_eq!(p.reclaim(), 0);
    // live allocations are not corrupted
    assert_eq!(p.read(&a).unwrap(), vec![7u8; 200]);
    assert_eq!(p.read(&b).unwrap(), Vec::<u8>::new());
    assert_eq!(p.free_bytes(), 624);
}

#[test]
fn compact_on_contiguous_free_space_moves_nothing() {
    let mut p = Pool::new(1024);
    let a = p.allocate(100).unwrap();
    let b = p.allocate(200).unwrap();
    p.write(&a, &vec![1u8, 2, 3]);
    p.write(&b, &vec![9u8; 200]);
    // freshly allocated pools are packed: all free space is one tail extent
    assert_eq!(p.compact(), 0);
    assert_eq!(p.compact(), 0);
    assert_eq!(p.read(&a).unwrap(), vec![1u8, 2, 3]);
    assert_eq!(p.read(&b).unwrap(), vec![9u8; 200]);
    assert_eq!(p.free_bytes(), 724);
}

#[test]
fn compact_merges_scattered_gaps() {
    let mut p = Pool::new(1024);
    let _a = p.allocate(150).unwrap();
    let b = p.allocate(150).unwrap();
    let c = p.allocate(150).unwrap();
    let d = p.allocate(150).unwrap();
    let _e = p.allocate(424).unwrap();
    p.write(&c, &vec![5u8; 150]);
    assert!(p.release(&b));
    assert!(p.release(&d));
    // 300 free bytes, but in two 150-byte gaps: 250 have no home
    assert_eq!(p.free_bytes(), 300);
    assert!(p.allocate(250).is_none());
    let coalesced = p.compact();
    assert_eq!(coalesced, 300);
    // after compaction the 300 bytes are one gap
    assert!(p.allocate(250).is_some());
    assert_eq!(p.free_bytes(), 50);
    // compaction moved c without touching its content
    assert_eq!(p.read(&c).unwrap(), vec![5u8; 150]);
}

#[test]
fn compact_leaves_a_single_gap_alone() {
    // a full region, then the first of its two allocations is released:
    // the free 100 bytes form one contiguous region at the front, so there
    // is nothing to de-fragment — compaction reports 0 and moves nothing
    let mut p = Pool::new(200);
    let a = p.allocate(100).unwrap();
    let b = p.allocate(100).unwrap();
    p.write(&b, &vec![4u8; 100]);
    assert!(p.release(&a));
    assert_eq!(p.free_bytes(), 100);
    assert_eq!(p.compact(), 0);
    assert_eq!(p.compact(), 0);
    assert_eq!(p.read(&b).unwrap(), vec![4u8; 100]);
    assert_eq!(p.free_bytes(), 100);
    // the untouched gap still serves a request of its full width
    assert!(p.allocate(100).is_some());
    assert_eq!(p.free_bytes(), 0);
}

#[test]
fn compact_slides_out_a_leading_gap() {
    let mut p = Pool::new(1024);
    let a = p.allocate(100).unwrap();
    let b = p.allocate(100).unwrap();
    p.write(&b, &vec![3u8; 100]);
    assert!(p.release(&a));
    // free space is fragmented: 100 bytes before the survivor and 824
    // after it, so compaction folds the leading gap into the tail
    assert_eq!(p.compact(), 100);
    assert_eq!(p.read(&b).unwrap(), vec![3u8; 100]);
    assert_eq!(p.compact(), 0);
    assert_eq!(p.free_bytes(), 924);
    assert!(p.allocate(924).is_some());
}

#[test]
fn write_and_read_round_trip() {
    let mut p = Pool::new(64);
    let h = p.allocate(16).unwrap();
    assert_eq!(p.read(&h).unwrap(), Vec::<u8>::new());
    assert!(p.write(&h, &vec![1u8, 2, 3, 4]));
    assert_eq!(p.read(&h).unwrap(), vec![1u8, 2, 3, 4]);
    // a payload larger than the lease is refused and changes nothing
    assert!(!p.write(&h, &vec![0u8; 17]));
    assert_eq!(p.read(&h).unwrap(), vec![1u8, 2, 3, 4]);
    // an abandoned lease takes no more writes
    assert!(p.abandon(&h));
    assert!(!p.write(&h, &vec![9u8]));
}
