use shm_pool::client::{acquire, probe_window, step, Action, AllocationError, PoolEvent, RetryState};
use shm_pool::pool::Pool;

#[test]
fn acquire_fast_path_skips_recovery() {
    let mut p = Pool::new(1024);
    let a = acquire(&mut p, 300).expect("enough contiguous space");
    assert!(a.recovery.is_none());
    assert_eq!(p.free_bytes(), 724);
    assert_eq!(p.read(&a.handle).unwrap(), Vec::<u8>::new());
}

#[test]
fn acquire_recovers_from_fragmentation() {
    // capacity 1024: 300 free bytes exist, but in two non-adjacent
    // 150-byte gaps, so a request for 250 bytes fails the fast path and
    // succeeds only after compaction merges the gaps.
    let mut p = Pool::new(1024);
    let _a = p.allocate(150).unwrap();
    let b = p.allocate(150).unwrap();
    let c = p.allocate(150).unwrap();
    let d = p.allocate(150).unwrap();
    let _e = p.allocate(424).unwrap();
    p.write(&c, &vec![8u8; 150]);
    assert!(p.release(&b));
    assert!(p.release(&d));
    assert_eq!(p.free_bytes(), 300);
    assert!(p.allocate(250).is_none());

    let got = acquire(&mut p, 250).expect("total free bytes cover the request");
    let rec = got.recovery.expect("the fast path could not have served this");
    // nothing was unreachable, so garbage collection found nothing ...
    assert_eq!(rec.bytes_reclaimed, 0);
    // ... and defragmentation folded both scattered gaps into the tail
    assert_eq!(rec.bytes_coalesced, 300);
    assert_eq!(p.free_bytes(), 50);
    // compaction kept the surviving buffer's content
    assert_eq!(p.read(&c).unwrap(), vec![8u8; 150]);
}

#[test]
fn acquire_reports_reclaimed_bytes() {
    let mut p = Pool::new(600);
    let _a = p.allocate(300).unwrap();
    let b = p.allocate(300).unwrap();
    assert!(p.abandon(&b));
    // the pool is full until garbage collection runs
    let got = acquire(&mut p, 200).expect("reclaiming the abandoned lease makes room");
    let rec = got.recovery.expect("the pool was full on the fast path");
    assert_eq!(rec.bytes_reclaimed, 300);
    assert_eq!(rec.bytes_coalesced, 0);
    assert_eq!(p.free_bytes(), 100);
}

#[test]
fn acquire_exhausted_after_single_retry() {
    // capacity 1024 with three 300-byte buffers: 124 bytes are free, and a
    // fourth request of 200 bytes cannot be served by any recovery.
    let mut p = Pool::new(1024);
    for _ in 0..3 {
        let a = acquire(&mut p, 300).unwrap();
        assert!(a.recovery.is_none());
    }
    assert_eq!(p.free_bytes(), 124);
    // the fast path fails, garbage collection finds nothing unreachable,
    // compaction finds free space already contiguous, and the retry fails
    assert!(p.allocate(200).is_none());
    assert_eq!(p.reclaim(), 0);
    assert_eq!(p.compact(), 0);
    assert!(p.allocate(200).is_none());

    let err = acquire(&mut p, 200).expect_err("no recovery can help");
    assert_eq!(err, AllocationError::Exhausted { requested: 200, free: 124 });
    // the failure is final: asking again gives the same answer, not a stall
    let err = acquire(&mut p, 200).expect_err("still exhausted");
    assert_eq!(err, AllocationError::Exhausted { requested: 200, free: 124 });
}

#[test]
fn exhausted_reports_request_and_free_space() {
    let mut p = Pool::new(100);
    let err = acquire(&mut p, 101).expect_err("over capacity");
    assert_eq!(err, AllocationError::Exhausted { requested: 101, free: 100 });
}

#[test]
fn retry_policy_transitions() {
    assert_eq!(
        step(RetryState::Fast, PoolEvent::Allocated),
        (RetryState::Fast, Action::Deliver)
    );
    assert_eq!(
        step(RetryState::Fast, PoolEvent::Rejected),
        (RetryState::Recovering, Action::BackoffRecoverRetry)
    );
    assert_eq!(
        step(RetryState::Recovering, PoolEvent::Allocated),
        (RetryState::Fast, Action::Deliver)
    );
    assert_eq!(
        step(RetryState::Recovering, PoolEvent::Rejected),
        (RetryState::Failed, Action::Abort)
    );
    assert_eq!(
        step(RetryState::Failed, PoolEvent::Allocated),
        (RetryState::Failed, Action::Abort)
    );
    assert_eq!(
        step(RetryState::Failed, PoolEvent::Rejected),
        (RetryState::Failed, Action::Abort)
    );
}

#[test]
fn probe_window_lies_inside_element() {
    assert_eq!(probe_window(0, 17), (0, 16));
    assert_eq!(probe_window(usize::MAX, 17), (0, 16));
    assert_eq!(probe_window(5, 1024), (5, 21));
    // the draw wraps around the admissible start positions
    assert_eq!(probe_window(1008, 1024), (0, 16));
    let (start, end) = probe_window(123_456_789, 1024);
    assert_eq!(end, start + 16);
    assert!(end <= 1024);
}
