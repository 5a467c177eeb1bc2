//! The allocation client: obtain a buffer from the pool, and on exhaustion
//! back off, reclaim, compact and retry exactly once before giving up.

use crate::pool::{
    alloc_end, lemma_contiguous_gap, lemma_has_gap_implies_free, lemma_live_le_total,
    live_bytes, live_filter, pack, total_bytes, AllocModel, BufferHandle, Pool, PoolModel,
};
use vstd::prelude::*;

verus! {

/// The one error the client surfaces: even after reclamation and compaction
/// the pool cannot hold the requested size. It carries the request and the
/// pool's free byte count at that point, for diagnostics.
#[derive(Clone, Copy, Debug, PartialEq, Eq, Structural)]
pub enum AllocationError {
    Exhausted { requested: usize, free: usize },
}

/// Diagnostics of one recovery pass: how many bytes garbage collection
/// freed and how many scattered free bytes defragmentation coalesced.
#[derive(Clone, Copy, Debug, PartialEq, Eq, Structural)]
pub struct Recovery {
    pub bytes_reclaimed: usize,
    pub bytes_coalesced: usize,
}

/// A successfully acquired buffer, with the recovery diagnostics when the
/// allocation only succeeded after a reclaim-and-compact pass.
#[derive(Clone, Copy, Debug)]
pub struct Acquired {
    pub handle: BufferHandle,
    pub recovery: Option<Recovery>,
}

/// The pool's model after garbage collection alone: the unreachable
/// allocations are gone, everything else untouched.
pub open spec fn reclaimed(m: PoolModel) -> PoolModel {
    PoolModel { capacity: m.capacity, next_id: m.next_id, allocs: live_filter(m.allocs) }
}

/// The pool's model after one full recovery pass — reclaim, then compact:
/// when the free space left by reclamation already forms at most one
/// contiguous region, compaction leaves the pool alone; otherwise every
/// surviving allocation slides to the front.
pub open spec fn recovered(m: PoolModel) -> PoolModel {
    if reclaimed(m).free_contiguous() {
        reclaimed(m)
    } else {
        PoolModel {
            capacity: m.capacity,
            next_id: m.next_id,
            allocs: pack(live_filter(m.allocs)),
        }
    }
}

/// Acquire a buffer of exactly `size` bytes from the pool.
///
/// The fast path is a direct allocation; it is taken, with no reclamation
/// or compaction, whenever some contiguous free gap can hold the request.
/// On exhaustion the pool is garbage collected and defragmented and the
/// allocation is retried exactly once; a second failure is final and
/// reports the request and the pool's remaining free bytes. The backoff
/// suspension that belongs between the failure and the recovery pass is
/// the caller's to perform — a driver that wants it explicit can run the
/// same policy step by step through `RetryState`.
///
/// Success is decided exactly by whether the request fits in the capacity
/// left over by reachable allocations: fragmentation and abandoned
/// allocations never make a request fail, and no retry beyond the single
/// recovery pass could ever succeed.
#[verifier::rlimit(100)]
#[verifier::spinoff_prover]
pub fn acquire(pool: &mut Pool, size: usize) -> (r: Result<Acquired, AllocationError>)
    requires
        old(pool)@.wf(),
        1 <= size,
        old(pool)@.next_id < u64::MAX,
    ensures
        final(pool)@.wf(),
        final(pool)@.capacity == old(pool)@.capacity,
        r is Ok <==> size as int <= old(pool)@.capacity - old(pool)@.reachable_bytes(),
        old(pool)@.has_gap(size as int) ==> (r matches Ok(a) && a.recovery is None),
        r matches Ok(a) ==> {
            &&& (a.recovery is None <==> old(pool)@.has_gap(size as int))
            &&& a.handle@ == old(pool)@.next_id
            &&& final(pool)@.next_id == old(pool)@.next_id + 1
            &&& final(pool)@.reachable_bytes() == old(pool)@.reachable_bytes() + size
            &&& a.recovery is None ==> final(pool)@.free_bytes() == old(pool)@.free_bytes()
                - size
            &&& a.recovery is Some ==> final(pool)@.free_bytes() == old(pool)@.capacity - old(
                pool,
            )@.reachable_bytes() - size
            &&& a.recovery is None ==> exists|i: int|
                0 <= i <= old(pool)@.allocs.len() && #[trigger] old(pool)@.fits_at(
                    i,
                    size as int,
                ) && (forall|j: int| 0 <= j < i ==> !old(pool)@.fits_at(j, size as int))
                    && final(pool)@.allocs == old(pool)@.allocs.insert(
                    i,
                    AllocModel {
                        id: old(pool)@.next_id,
                        offset: old(pool)@.gap_start(i),
                        size: size as int,
                        live: true,
                        data: Seq::empty(),
                    },
                )
            &&& a.recovery matches Some(rec) ==> {
                &&& rec.bytes_reclaimed as int == total_bytes(old(pool)@.allocs) - live_bytes(
                    old(pool)@.allocs,
                )
                &&& rec.bytes_coalesced as int == (if reclaimed(old(pool)@).free_contiguous() {
                    0int
                } else {
                    alloc_end(live_filter(old(pool)@.allocs).last()) - total_bytes(
                        live_filter(old(pool)@.allocs),
                    )
                })
                &&& exists|i: int|
                    0 <= i <= recovered(old(pool)@).allocs.len() && #[trigger] recovered(
                        old(pool)@,
                    ).fits_at(i, size as int) && (forall|j: int|
                        0 <= j < i ==> !recovered(old(pool)@).fits_at(j, size as int))
                        && final(pool)@.allocs == recovered(old(pool)@).allocs.insert(
                        i,
                        AllocModel {
                            id: old(pool)@.next_id,
                            offset: recovered(old(pool)@).gap_start(i),
                            size: size as int,
                            live: true,
                            data: Seq::empty(),
                        },
                    )
            }
        },
        r matches Err(e) ==> (e matches AllocationError::Exhausted { requested, free }
            && requested == size
            && free as int == old(pool)@.capacity - old(pool)@.reachable_bytes()),
        r is Err ==> {
            &&& final(pool)@.next_id == old(pool)@.next_id
            &&& final(pool)@.allocs == recovered(old(pool)@).allocs
            &&& final(pool)@.reachable_bytes() == old(pool)@.reachable_bytes()
        },
{
    let ghost m0 = pool@;
    match pool.allocate(size) {
        Some(h) => {
            proof {
                lemma_has_gap_implies_free(m0, size as int);
                lemma_live_le_total(m0.allocs);
            }
            Ok(Acquired { handle: h, recovery: None })
        },
        None => {
            let freed = pool.reclaim();
            let ghost m1 = pool@;
            let coalesced = pool.compact();
            let ghost m2 = pool@;
            proof {
                assert(m1 == reclaimed(m0));
                assert(m2 == recovered(m0));
                lemma_contiguous_gap(m2, size as int);
            }
            match pool.allocate(size) {
                Some(h) => Ok(
                    Acquired {
                        handle: h,
                        recovery: Some(
                            Recovery { bytes_reclaimed: freed, bytes_coalesced: coalesced },
                        ),
                    },
                ),
                None => {
                    let free = pool.free_bytes();
                    Err(AllocationError::Exhausted { requested: size, free })
                },
            }
        },
    }
}

/// Law: whenever the pool's total free bytes cover a request — however
/// fragmented that free space is, and before any reclamation — the request
/// fits in the capacity left over by reachable allocations, so `acquire`
/// succeeds after at most one reclaim-compact-retry cycle.
pub proof fn lemma_fragmented_free_suffices(m: PoolModel, size: int)
    requires
        m.wf(),
        1 <= size,
        size <= m.free_bytes(),
    ensures
        size <= m.capacity - m.reachable_bytes(),
{
    lemma_live_le_total(m.allocs);
}

/// The retry policy as a state machine, for a driver that performs the
/// outside work (the backoff suspension, the pool calls) itself.
///
/// `Fast` is the normal state: attempt a direct allocation. A rejection
/// moves to `Recovering`: the driver backs off, reclaims, compacts and
/// retries. A rejection in `Recovering` is terminal: the pool cannot serve
/// the request, and the driver must abort rather than retry again.
#[derive(Clone, Copy, Debug, PartialEq, Eq, Structural)]
pub enum RetryState {
    Fast,
    Recovering,
    Failed,
}

/// Outcome of the allocation attempt the driver just made.
#[derive(Clone, Copy, Debug, PartialEq, Eq, Structural)]
pub enum PoolEvent {
    Allocated,
    Rejected,
}

/// What the driver must do next.
#[derive(Clone, Copy, Debug, PartialEq, Eq, Structural)]
pub enum Action {
    /// Hand the freshly allocated buffer to its consumer.
    Deliver,
    /// Suspend for the backoff interval, reclaim, compact, then retry the
    /// allocation once.
    BackoffRecoverRetry,
    /// Treat the pool as exhausted and terminate.
    Abort,
}

/// The transition table of the retry policy.
pub open spec fn spec_step(state: RetryState, event: PoolEvent) -> (RetryState, Action) {
    match (state, event) {
        (RetryState::Fast, PoolEvent::Allocated) => (RetryState::Fast, Action::Deliver),
        (RetryState::Fast, PoolEvent::Rejected) => (
            RetryState::Recovering,
            Action::BackoffRecoverRetry,
        ),
        (RetryState::Recovering, PoolEvent::Allocated) => (RetryState::Fast, Action::Deliver),
        (RetryState::Recovering, PoolEvent::Rejected) => (RetryState::Failed, Action::Abort),
        (RetryState::Failed, _) => (RetryState::Failed, Action::Abort),
    }
}

/// Advance the retry policy by one allocation outcome.
pub fn step(state: RetryState, event: PoolEvent) -> (r: (RetryState, Action))
    ensures
        r == spec_step(state, event),
{
    match (state, event) {
        (RetryState::Fast, PoolEvent::Allocated) => (RetryState::Fast, Action::Deliver),
        (RetryState::Fast, PoolEvent::Rejected) => (
            RetryState::Recovering,
            Action::BackoffRecoverRetry,
        ),
        (RetryState::Recovering, PoolEvent::Allocated) => (RetryState::Fast, Action::Deliver),
        (RetryState::Recovering, PoolEvent::Rejected) => (RetryState::Failed, Action::Abort),
        (RetryState::Failed, _) => (RetryState::Failed, Action::Abort),
    }
}

/// The 16-byte probe window that a drawn value selects inside an element
/// of `elem_size` bytes: the draw is reduced to a start position, and the
/// whole window lies within the element.
pub fn probe_window(draw: usize, elem_size: usize) -> (r: (usize, usize))
    requires
        17 <= elem_size,
    ensures
        r.0 as int == draw as int % (elem_size - 16) as int,
        r.1 == r.0 + 16,
        r.1 <= elem_size,
{
    let start = draw % (elem_size - 16);
    (start, start + 16)
}

/// Law: the policy never asks for a second recovery cycle — a recovery is
/// only ever ordered from the fast path, and a failure after recovery is
/// terminal: from `Failed` every event aborts.
pub proof fn lemma_single_retry(state: RetryState, event: PoolEvent)
    ensures
        spec_step(state, event).1 == Action::BackoffRecoverRetry ==> state == RetryState::Fast,
        spec_step(RetryState::Failed, event).0 == RetryState::Failed,
        spec_step(RetryState::Failed, event).1 == Action::Abort,
{
}

} // verus!
