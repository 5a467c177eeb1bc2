//! A capacity-bounded pool of contiguous buffer allocations.
//!
//! The pool hands out leases (`BufferHandle`) on disjoint byte ranges of a
//! fixed-capacity region. Space returns to the pool when a holder releases
//! its handle; a holder that disappears without releasing leaves the
//! allocation unreachable, and `reclaim` (garbage collection) frees such
//! space. `compact` (defragmentation) slides the remaining allocations to
//! the front of the region so that all free space forms one contiguous
//! extent at the tail.

use vstd::prelude::*;

verus! {

/// Mathematical model of one allocation: its lease identity, the byte range
/// it occupies, whether its holder is still reachable, and the bytes written
/// into it so far.
pub ghost struct AllocModel {
    pub id: int,
    pub offset: int,
    pub size: int,
    pub live: bool,
    pub data: Seq<u8>,
}

/// Mathematical model of the pool: its fixed capacity, the next unused lease
/// identity, and the allocations ordered by offset.
pub ghost struct PoolModel {
    pub capacity: int,
    pub next_id: int,
    pub allocs: Seq<AllocModel>,
}

/// First byte past the end of an allocation's range.
pub open spec fn alloc_end(a: AllocModel) -> int {
    a.offset + a.size
}

/// Allocations are ordered by offset and their ranges do not overlap.
pub open spec fn sorted_disjoint(s: Seq<AllocModel>) -> bool {
    forall|i: int, j: int|
        #![trigger s[i], s[j]]
        0 <= i < j < s.len() ==> alloc_end(s[i]) <= s[j].offset
}

/// One allocation lies inside the region, occupies at least one byte, and
/// holds no more content than its size.
pub open spec fn entry_wf(a: AllocModel, capacity: int) -> bool {
    &&& 0 <= a.offset
    &&& 1 <= a.size
    &&& a.offset + a.size <= capacity
    &&& a.data.len() <= a.size
    &&& 0 <= a.id
}

pub open spec fn entries_wf(s: Seq<AllocModel>, capacity: int) -> bool {
    forall|i: int| 0 <= i < s.len() ==> entry_wf(#[trigger] s[i], capacity)
}

/// No two allocations share a lease identity.
pub open spec fn ids_unique(s: Seq<AllocModel>) -> bool {
    forall|i: int, j: int|
        #![trigger s[i].id, s[j].id]
        0 <= i < j < s.len() ==> s[i].id != s[j].id
}

/// Total bytes occupied by the allocations (reachable or not).
pub open spec fn total_bytes(s: Seq<AllocModel>) -> int
    decreases s.len(),
{
    if s.len() == 0 {
        0
    } else {
        total_bytes(s.drop_last()) + s.last().size
    }
}

/// Bytes occupied by reachable allocations only.
pub open spec fn live_bytes(s: Seq<AllocModel>) -> int
    decreases s.len(),
{
    if s.len() == 0 {
        0
    } else {
        live_bytes(s.drop_last()) + if s.last().live {
            s.last().size
        } else {
            0
        }
    }
}

/// The allocations that survive reclamation: the reachable ones, in order.
pub open spec fn live_filter(s: Seq<AllocModel>) -> Seq<AllocModel>
    decreases s.len(),
{
    if s.len() == 0 {
        Seq::empty()
    } else if s.last().live {
        live_filter(s.drop_last()).push(s.last())
    } else {
        live_filter(s.drop_last())
    }
}

/// The allocations after compaction: same entries in order, slid to the
/// front so that each one starts where its predecessor ends.
pub open spec fn pack(s: Seq<AllocModel>) -> Seq<AllocModel>
    decreases s.len(),
{
    if s.len() == 0 {
        Seq::empty()
    } else {
        pack(s.drop_last()).push(
            AllocModel { offset: total_bytes(s.drop_last()), ..s.last() },
        )
    }
}

/// Free space is one contiguous extent at the tail: every allocation starts
/// where its predecessor ends, the first at offset zero.
pub open spec fn packed_seq(s: Seq<AllocModel>) -> bool {
    forall|i: int|
        #![trigger s[i]]
        0 <= i < s.len() ==> s[i].offset == if i == 0 {
            0int
        } else {
            alloc_end(s[i - 1])
        }
}

impl PoolModel {
    pub open spec fn wf(self) -> bool {
        &&& 0 <= self.capacity <= usize::MAX
        &&& 0 <= self.next_id <= u64::MAX
        &&& sorted_disjoint(self.allocs)
        &&& entries_wf(self.allocs, self.capacity)
        &&& ids_unique(self.allocs)
        &&& forall|i: int|
            0 <= i < self.allocs.len() ==> (#[trigger] self.allocs[i]).id < self.next_id
    }

    /// Start of the free gap before allocation `i` (or before the tail for
    /// `i == allocs.len()`).
    pub open spec fn gap_start(self, i: int) -> int {
        if i == 0 {
            0
        } else {
            alloc_end(self.allocs[i - 1])
        }
    }

    /// End of the free gap before allocation `i`.
    pub open spec fn gap_end(self, i: int) -> int {
        if i == self.allocs.len() {
            self.capacity
        } else {
            self.allocs[i].offset
        }
    }

    /// A request of `size` bytes fits in the gap before allocation `i`.
    pub open spec fn fits_at(self, i: int, size: int) -> bool {
        self.gap_start(i) + size <= self.gap_end(i)
    }

    /// Some contiguous free gap can hold `size` bytes.
    pub open spec fn has_gap(self, size: int) -> bool {
        exists|i: int| 0 <= i <= self.allocs.len() && self.fits_at(i, size)
    }

    /// Bytes not occupied by any allocation, contiguous or not.
    pub open spec fn free_bytes(self) -> int {
        self.capacity - total_bytes(self.allocs)
    }

    /// Bytes occupied by reachable allocations.
    pub open spec fn reachable_bytes(self) -> int {
        live_bytes(self.allocs)
    }

    /// Every allocation's holder is still reachable: nothing to reclaim.
    pub open spec fn no_unreachable(self) -> bool {
        forall|i: int| 0 <= i < self.allocs.len() ==> (#[trigger] self.allocs[i]).live
    }

    /// Width of the free gap before allocation `i` (or of the tail gap for
    /// `i == allocs.len()`).
    pub open spec fn gap_width(self, i: int) -> int {
        self.gap_end(i) - self.gap_start(i)
    }

    /// Every allocation starts where its predecessor ends: all free space
    /// lies at the tail of the region.
    pub open spec fn is_packed(self) -> bool {
        packed_seq(self.allocs)
    }

    /// Free space already forms at most one contiguous region, wherever in
    /// the region it lies: no two distinct gaps both hold bytes. Nothing is
    /// fragmented, so there is nothing for compaction to do.
    pub open spec fn free_contiguous(self) -> bool {
        forall|i: int, j: int|
            #![trigger self.gap_width(i), self.gap_width(j)]
            0 <= i < j <= self.allocs.len() ==> (self.gap_width(i) == 0 || self.gap_width(j)
                == 0)
    }

    /// Some allocation carries this lease identity.
    pub open spec fn has_id(self, id: int) -> bool {
        exists|i: int| 0 <= i < self.allocs.len() && self.allocs[i].id == id
    }
}

// ---------------------------------------------------------------------------
// Lemmas about the model
// ---------------------------------------------------------------------------

/// Occupied byte counts add over concatenation.
pub proof fn lemma_total_bytes_add(a: Seq<AllocModel>, b: Seq<AllocModel>)
    ensures
        total_bytes(a + b) == total_bytes(a) + total_bytes(b),
    decreases b.len(),
{
    if b.len() == 0 {
        assert(a + b =~= a);
    } else {
        assert((a + b).drop_last() =~= a + b.drop_last());
        lemma_total_bytes_add(a, b.drop_last());
    }
}

/// Reachable byte counts add over concatenation.
pub proof fn lemma_live_bytes_add(a: Seq<AllocModel>, b: Seq<AllocModel>)
    ensures
        live_bytes(a + b) == live_bytes(a) + live_bytes(b),
    decreases b.len(),
{
    if b.len() == 0 {
        assert(a + b =~= a);
    } else {
        assert((a + b).drop_last() =~= a + b.drop_last());
        lemma_live_bytes_add(a, b.drop_last());
    }
}

/// Reachable allocations occupy no more than all allocations do.
pub proof fn lemma_live_le_total(s: Seq<AllocModel>)
    requires
        forall|i: int| 0 <= i < s.len() ==> (#[trigger] s[i]).size >= 0,
    ensures
        0 <= live_bytes(s) <= total_bytes(s),
    decreases s.len(),
{
    if s.len() > 0 {
        assert(s.last() == s[s.len() - 1]);
        lemma_live_le_total(s.drop_last());
    }
}

/// Ordered disjoint allocations between indices `a` and `b` occupy at most
/// the span from the first one's start to the last one's end.
pub proof fn lemma_range_bytes(s: Seq<AllocModel>, a: int, b: int, capacity: int)
    requires
        sorted_disjoint(s),
        entries_wf(s, capacity),
        0 <= a < b <= s.len(),
    ensures
        total_bytes(s.subrange(a, b)) <= alloc_end(s[b - 1]) - s[a].offset,
    decreases b - a,
{
    if b - a == 1 {
        let one = s.subrange(a, b);
        assert(one =~= seq![s[a]]);
        assert(one.drop_last() =~= Seq::<AllocModel>::empty());
        assert(total_bytes(one.drop_last()) == 0);
        assert(one.last() == s[a]);
        assert(total_bytes(one) == s[a].size);
    } else {
        let whole = s.subrange(a, b);
        assert(whole.drop_last() =~= s.subrange(a, b - 1));
        lemma_range_bytes(s, a, b - 1, capacity);
        assert(whole.last() == s[b - 1]);
        assert(total_bytes(whole) == total_bytes(s.subrange(a, b - 1)) + s[b - 1].size);
        assert(alloc_end(s[b - 2]) <= s[b - 1].offset);
        assert(entry_wf(s[b - 1], capacity));
    }
}

/// Law: a well-formed pool never over-commits — the bytes held by its
/// reachable allocations never exceed the bytes held by all allocations,
/// which never exceed the fixed capacity, so its free byte count is never
/// negative.
pub proof fn lemma_never_overcommitted(m: PoolModel)
    requires
        m.wf(),
    ensures
        0 <= m.reachable_bytes(),
        m.reachable_bytes() <= m.capacity - m.free_bytes(),
        0 <= m.free_bytes() <= m.capacity,
{
    let s = m.allocs;
    lemma_live_le_total(s);
    if s.len() > 0 {
        lemma_range_bytes(s, 0, s.len() as int, m.capacity);
        assert(s.subrange(0, s.len() as int) =~= s);
        assert(entry_wf(s[0], m.capacity));
        assert(entry_wf(s[s.len() - 1], m.capacity));
    }
}

/// No free gap is larger than the pool's total free byte count.
pub proof fn lemma_gap_le_free(m: PoolModel, i: int)
    requires
        m.wf(),
        0 <= i <= m.allocs.len(),
    ensures
        m.gap_end(i) - m.gap_start(i) <= m.free_bytes(),
{
    let s = m.allocs;
    let n = s.len() as int;
    assert(s =~= s.subrange(0, i) + s.subrange(i, n));
    lemma_total_bytes_add(s.subrange(0, i), s.subrange(i, n));
    if i > 0 {
        lemma_range_bytes(s, 0, i, m.capacity);
        assert(s.subrange(0, i).subrange(0, i) =~= s.subrange(0, i));
        assert(total_bytes(s.subrange(0, i)) <= m.gap_start(i));
    } else {
        assert(s.subrange(0, 0) =~= Seq::<AllocModel>::empty());
    }
    if i < n {
        lemma_range_bytes(s, i, n, m.capacity);
        assert(total_bytes(s.subrange(i, n)) <= m.capacity - m.gap_end(i));
    } else {
        assert(s.subrange(n, n) =~= Seq::<AllocModel>::empty());
    }
}

/// A pool that can serve a request from some gap has at least that much
/// free space in total.
pub proof fn lemma_has_gap_implies_free(m: PoolModel, size: int)
    requires
        m.wf(),
        m.has_gap(size),
    ensures
        size <= m.free_bytes(),
{
    let i = choose|i: int| 0 <= i <= m.allocs.len() && m.fits_at(i, size);
    lemma_gap_le_free(m, i);
}

/// Allocations occupy a nonnegative byte count.
pub proof fn lemma_total_nonneg(s: Seq<AllocModel>)
    requires
        forall|i: int| 0 <= i < s.len() ==> (#[trigger] s[i]).size >= 0,
    ensures
        total_bytes(s) >= 0,
    decreases s.len(),
{
    if s.len() > 0 {
        assert(s.last() == s[s.len() - 1]);
        lemma_total_nonneg(s.drop_last());
    }
}

/// The ordered disjoint allocations end no earlier than their total size.
pub proof fn lemma_total_le_last_end(s: Seq<AllocModel>, capacity: int)
    requires
        sorted_disjoint(s),
        entries_wf(s, capacity),
        s.len() > 0,
    ensures
        total_bytes(s) <= alloc_end(s.last()),
{
    lemma_range_bytes(s, 0, s.len() as int, capacity);
    assert(s.subrange(0, s.len() as int) =~= s);
}

/// What reclamation leaves behind is well formed: the reachable allocations,
/// still ordered and disjoint, occupying exactly the reachable byte count,
/// each of them one of the original allocations.
pub proof fn lemma_live_filter(s: Seq<AllocModel>, capacity: int)
    requires
        sorted_disjoint(s),
        entries_wf(s, capacity),
        ids_unique(s),
    ensures
        live_filter(s).len() <= s.len(),
        sorted_disjoint(live_filter(s)),
        entries_wf(live_filter(s), capacity),
        ids_unique(live_filter(s)),
        total_bytes(live_filter(s)) == live_bytes(s),
        forall|k: int|
            0 <= k < live_filter(s).len() ==> (#[trigger] live_filter(s)[k]).live,
        forall|k: int|
            0 <= k < live_filter(s).len() ==> exists|j: int|
                0 <= j < s.len() && #[trigger] live_filter(s)[k] == #[trigger] s[j],
    decreases s.len(),
{
    if s.len() == 0 {
        return ;
    }
    let d = s.drop_last();
    let last = s.last();
    assert(forall|i: int| 0 <= i < d.len() ==> d[i] == s[i]);
    lemma_live_filter(d, capacity);
    let lfd = live_filter(d);
    assert forall|k: int| 0 <= k < lfd.len() implies exists|j: int|
        0 <= j < s.len() && #[trigger] lfd[k] == #[trigger] s[j] by {
        let j = choose|j: int| 0 <= j < d.len() && lfd[k] == #[trigger] d[j];
        assert(lfd[k] == s[j]);
    }
    if last.live {
        let lf = lfd.push(last);
        assert(live_filter(s) == lf);
        assert(lf.drop_last() =~= lfd);
        assert(lf.last() == last);
        assert(forall|k: int| 0 <= k < lfd.len() ==> lf[k] == lfd[k]);
        assert(lf[lf.len() - 1] == last && last == s[s.len() - 1]);
        assert forall|i: int, j: int|
            #![trigger lf[i], lf[j]]
            0 <= i < j < lf.len() implies alloc_end(lf[i]) <= lf[j].offset by {
            if j < lf.len() - 1 {
                assert(alloc_end(lfd[i]) <= lfd[j].offset);
            } else {
                let j0 = choose|j0: int| 0 <= j0 < d.len() && lfd[i] == #[trigger] d[j0];
                assert(alloc_end(s[j0]) <= s[s.len() - 1].offset);
            }
        }
        assert forall|i: int, j: int|
            #![trigger lf[i].id, lf[j].id]
            0 <= i < j < lf.len() implies lf[i].id != lf[j].id by {
            if j < lf.len() - 1 {
                assert(lfd[i].id != lfd[j].id);
            } else {
                let j0 = choose|j0: int| 0 <= j0 < d.len() && lfd[i] == #[trigger] d[j0];
                assert(s[j0].id != s[s.len() - 1].id);
            }
        }
        assert(entry_wf(last, capacity));
    } else {
        assert(live_filter(s) == lfd);
    }
}

/// Reclamation on a pool with no unreachable allocations changes nothing.
pub proof fn lemma_live_filter_all_live(s: Seq<AllocModel>)
    requires
        forall|i: int| 0 <= i < s.len() ==> (#[trigger] s[i]).live,
    ensures
        live_filter(s) == s,
    decreases s.len(),
{
    if s.len() > 0 {
        let d = s.drop_last();
        assert(forall|i: int| 0 <= i < d.len() ==> d[i] == s[i]);
        lemma_live_filter_all_live(d);
        assert(s[s.len() - 1].live);
        assert(live_filter(s) =~= s);
    }
}

/// When every allocation is reachable, the reachable bytes are all bytes.
pub proof fn lemma_live_bytes_all_live(s: Seq<AllocModel>)
    requires
        forall|i: int| 0 <= i < s.len() ==> (#[trigger] s[i]).live,
    ensures
        live_bytes(s) == total_bytes(s),
    decreases s.len(),
{
    if s.len() > 0 {
        let d = s.drop_last();
        assert(forall|i: int| 0 <= i < d.len() ==> d[i] == s[i]);
        assert(s.last() == s[s.len() - 1]);
        lemma_live_bytes_all_live(d);
    }
}

/// When no bytes are unreachable, every allocation is reachable: each
/// unreachable one would hold at least one byte.
pub proof fn lemma_no_dead_bytes_all_live(s: Seq<AllocModel>, capacity: int)
    requires
        entries_wf(s, capacity),
        live_bytes(s) == total_bytes(s),
    ensures
        forall|i: int| 0 <= i < s.len() ==> (#[trigger] s[i]).live,
    decreases s.len(),
{
    if s.len() > 0 {
        let d = s.drop_last();
        assert(forall|i: int| 0 <= i < d.len() ==> d[i] == s[i]);
        assert(s.last() == s[s.len() - 1]);
        assert(entry_wf(s[s.len() - 1], capacity));
        lemma_live_le_total(d);
        lemma_no_dead_bytes_all_live(d, capacity);
    }
}

/// When the allocations end exactly at their total byte count, no free
/// byte lies before or between them: the pool is packed.
#[verifier::rlimit(60)]
#[verifier::spinoff_prover]
pub proof fn lemma_tight_tail_is_packed(s: Seq<AllocModel>, capacity: int)
    requires
        sorted_disjoint(s),
        entries_wf(s, capacity),
        s.len() > 0,
        alloc_end(s.last()) == total_bytes(s),
    ensures
        packed_seq(s),
    decreases s.len(),
{
    let d = s.drop_last();
    assert(forall|i: int| 0 <= i < d.len() ==> d[i] == s[i]);
    assert(s.last() == s[s.len() - 1]);
    if s.len() == 1 {
        assert(total_bytes(d) == 0);
        assert(total_bytes(s) == s[0].size);
        assert(s[0].offset == 0);
    } else {
        lemma_total_le_last_end(d, capacity);
        assert(alloc_end(d.last()) <= s.last().offset);
        assert(s.last().offset == total_bytes(d));
        assert(alloc_end(d.last()) == total_bytes(d));
        lemma_tight_tail_is_packed(d, capacity);
        assert forall|i: int|
            #![trigger s[i]]
            0 <= i < s.len() implies s[i].offset == if i == 0 {
            0int
        } else {
            alloc_end(s[i - 1])
        } by {
            if i < s.len() - 1 {
                assert(d[i] == s[i]);
            } else {
                assert(s[i].offset == alloc_end(d.last()));
            }
        }
    }
}

/// Prefix byte counts grow with the prefix.
pub proof fn lemma_total_take_monotone(s: Seq<AllocModel>, i: int, j: int)
    requires
        forall|k: int| 0 <= k < s.len() ==> (#[trigger] s[k]).size >= 0,
        0 <= i <= j <= s.len(),
    ensures
        total_bytes(s.take(i)) <= total_bytes(s.take(j)),
{
    assert(s.take(j) =~= s.take(i) + s.subrange(i, j));
    lemma_total_bytes_add(s.take(i), s.subrange(i, j));
    lemma_total_nonneg(s.subrange(i, j));
}

/// Compaction slides every allocation to the position right after its
/// predecessors, keeping identity, size, reachability and content; the
/// result is well formed, occupies the same byte counts, and its free space
/// is one contiguous tail extent.
pub proof fn lemma_pack(s: Seq<AllocModel>, capacity: int)
    requires
        sorted_disjoint(s),
        entries_wf(s, capacity),
        ids_unique(s),
        0 <= capacity,
    ensures
        pack(s).len() == s.len(),
        forall|i: int|
            0 <= i < s.len() ==> #[trigger] pack(s)[i] == (AllocModel {
                offset: total_bytes(s.take(i)),
                ..s[i]
            }),
        total_bytes(pack(s)) == total_bytes(s),
        live_bytes(pack(s)) == live_bytes(s),
        sorted_disjoint(pack(s)),
        entries_wf(pack(s), capacity),
        ids_unique(pack(s)),
        packed_seq(pack(s)),
    decreases s.len(),
{
    if s.len() == 0 {
        return ;
    }
    let d = s.drop_last();
    let n = s.len() as int;
    assert(forall|i: int| 0 <= i < d.len() ==> d[i] == s[i]);
    lemma_pack(d, capacity);
    let p = pack(s);
    let pd = pack(d);
    assert(p == pd.push(AllocModel { offset: total_bytes(d), ..s.last() }));
    assert(p.drop_last() =~= pd);
    assert(forall|k: int| 0 <= k < pd.len() ==> p[k] == pd[k]);
    assert(d =~= s.take(n - 1));
    assert forall|i: int| 0 <= i < s.len() implies #[trigger] p[i] == (AllocModel {
        offset: total_bytes(s.take(i)),
        ..s[i]
    }) by {
        if i < n - 1 {
            assert(pd[i] == AllocModel { offset: total_bytes(d.take(i)), ..d[i] });
            assert(d.take(i) =~= s.take(i));
        } else {
            assert(p[n - 1] == AllocModel { offset: total_bytes(d), ..s.last() });
        }
    }
    // byte counts
    assert(p.last() == AllocModel { offset: total_bytes(d), ..s.last() });
    assert(total_bytes(p) == total_bytes(pd) + s.last().size);
    assert(live_bytes(p) == live_bytes(pd) + if s.last().live {
        s.last().size
    } else {
        0
    });
    // well-formedness of each packed entry
    assert forall|i: int| 0 <= i < p.len() implies entry_wf(#[trigger] p[i], capacity) by {
        lemma_total_nonneg(s.take(i));
        assert(s.take(i + 1).drop_last() =~= s.take(i));
        assert(s.take(i + 1).last() == s[i]);
        assert(total_bytes(s.take(i + 1)) == total_bytes(s.take(i)) + s[i].size);
        lemma_range_bytes(s, 0, i + 1, capacity);
        assert(s.take(i + 1) =~= s.subrange(0, i + 1));
        assert(total_bytes(s.take(i + 1)) <= alloc_end(s[i]) - s[0].offset);
        assert(entry_wf(s[i], capacity));
    }
    // order: offsets are prefix sums, monotone
    assert forall|i: int, j: int|
        #![trigger p[i], p[j]]
        0 <= i < j < p.len() implies alloc_end(p[i]) <= p[j].offset by {
        assert(s.take(i + 1).drop_last() =~= s.take(i));
        assert(s.take(i + 1).last() == s[i]);
        assert(alloc_end(p[i]) == total_bytes(s.take(i + 1)));
        lemma_total_take_monotone(s, i + 1, j);
    }
    assert forall|i: int|
        #![trigger p[i]]
        0 <= i < p.len() implies p[i].offset == if i == 0 {
        0int
    } else {
        alloc_end(p[i - 1])
    } by {
        if i == 0 {
            assert(s.take(0) =~= Seq::<AllocModel>::empty());
        } else {
            assert(s.take(i).drop_last() =~= s.take(i - 1));
            assert(s.take(i).last() == s[i - 1]);
            assert(alloc_end(p[i - 1]) == total_bytes(s.take(i)));
        }
    }
    assert forall|i: int, j: int|
        #![trigger p[i].id, p[j].id]
        0 <= i < j < p.len() implies p[i].id != p[j].id by {
        assert(p[i].id == s[i].id && p[j].id == s[j].id);
    }
}

/// On a pool whose free space is one contiguous tail extent, the allocations
/// end exactly at their total byte count.
pub proof fn lemma_packed_total(s: Seq<AllocModel>)
    requires
        packed_seq(s),
    ensures
        total_bytes(s) == if s.len() == 0 {
            0int
        } else {
            alloc_end(s.last())
        },
    decreases s.len(),
{
    if s.len() > 0 {
        let d = s.drop_last();
        assert(forall|i: int| 0 <= i < d.len() ==> d[i] == s[i]);
        lemma_packed_total(d);
        assert(s[s.len() - 1].offset == if s.len() == 1 {
            0int
        } else {
            alloc_end(s[s.len() - 2])
        });
    }
}

/// A pool with all free space at the tail in particular has its free space
/// in at most one region.
pub proof fn lemma_packed_free_contiguous(m: PoolModel)
    requires
        m.is_packed(),
    ensures
        m.free_contiguous(),
{
    assert forall|i: int, j: int|
        #![trigger m.gap_width(i), m.gap_width(j)]
        0 <= i < j <= m.allocs.len() implies (m.gap_width(i) == 0 || m.gap_width(j)
        == 0) by {
        assert(m.allocs[i].offset == m.gap_start(i));
    }
}

/// Allocations that sit flush against one another up to the region's end
/// occupy exactly the span from the first one's start to that end.
proof fn lemma_packed_tail_total(s: Seq<AllocModel>, g: int, capacity: int)
    requires
        0 <= g < s.len(),
        forall|i: int| g < i < s.len() ==> (#[trigger] s[i]).offset == alloc_end(s[i - 1]),
        alloc_end(s[s.len() - 1]) == capacity,
    ensures
        total_bytes(s.subrange(g, s.len() as int)) == capacity - s[g].offset,
    decreases s.len() - g,
{
    let n = s.len() as int;
    if g == n - 1 {
        assert(s.subrange(g, n) =~= seq![s[g]]);
        assert(seq![s[g]].drop_last() =~= Seq::<AllocModel>::empty());
        assert(total_bytes(seq![s[g]].drop_last()) == 0);
        assert(seq![s[g]].last() == s[g]);
    } else {
        lemma_packed_tail_total(s, g + 1, capacity);
        assert(s.subrange(g, n) =~= seq![s[g]] + s.subrange(g + 1, n));
        lemma_total_bytes_add(seq![s[g]], s.subrange(g + 1, n));
        assert(seq![s[g]].drop_last() =~= Seq::<AllocModel>::empty());
        assert(total_bytes(seq![s[g]].drop_last()) == 0);
        assert(seq![s[g]].last() == s[g]);
        assert(s[g + 1].offset == alloc_end(s[g]));
    }
}

/// When every gap but one is empty, that one gap holds exactly the pool's
/// free bytes.
pub proof fn lemma_one_gap_free(m: PoolModel, g: int)
    requires
        m.wf(),
        0 <= g <= m.allocs.len(),
        forall|i: int| 0 <= i <= m.allocs.len() && i != g ==> #[trigger] m.gap_width(i) == 0,
    ensures
        m.gap_width(g) == m.free_bytes(),
{
    let s = m.allocs;
    let n = s.len() as int;
    let p = s.take(g);
    // the allocations before the gap sit flush from the region's start
    assert forall|i: int|
        #![trigger p[i]]
        0 <= i < p.len() implies p[i].offset == if i == 0 {
        0int
    } else {
        alloc_end(p[i - 1])
    } by {
        assert(m.gap_width(i) == 0);
        assert(p[i] == s[i]);
        if i > 0 {
            assert(p[i - 1] == s[i - 1]);
        }
    }
    lemma_packed_total(p);
    if g > 0 {
        assert(p.last() == s[g - 1]);
    }
    assert(total_bytes(p) == m.gap_start(g));
    // the allocations after the gap sit flush up to the region's end
    if g < n {
        assert forall|i: int| g < i < n implies (#[trigger] s[i]).offset == alloc_end(
            s[i - 1],
        ) by {
            assert(m.gap_width(i) == 0);
        }
        assert(m.gap_width(n) == 0);
        assert(alloc_end(s[n - 1]) == m.capacity);
        lemma_packed_tail_total(s, g, m.capacity);
        assert(total_bytes(s.subrange(g, n)) == m.capacity - m.gap_end(g));
    } else {
        assert(s.subrange(n, n) =~= Seq::<AllocModel>::empty());
        assert(total_bytes(s.subrange(n, n)) == 0);
    }
    assert(s =~= p + s.subrange(g, n));
    lemma_total_bytes_add(p, s.subrange(g, n));
}

/// On a pool whose free space forms at most one contiguous region, a
/// request fits in some gap exactly when it fits in the total free space.
pub proof fn lemma_contiguous_gap(m: PoolModel, size: int)
    requires
        m.wf(),
        m.free_contiguous(),
        1 <= size,
    ensures
        m.has_gap(size) <==> size <= m.free_bytes(),
{
    let n = m.allocs.len() as int;
    if m.has_gap(size) {
        lemma_has_gap_implies_free(m, size);
    }
    if size <= m.free_bytes() {
        if exists|g: int| 0 <= g <= n && #[trigger] m.gap_width(g) > 0 {
            let g = choose|g: int| 0 <= g <= n && #[trigger] m.gap_width(g) > 0;
            assert forall|i: int| 0 <= i <= n && i != g implies #[trigger] m.gap_width(i)
                == 0 by {
                if i < g {
                    assert(m.gap_width(i) == 0 || m.gap_width(g) == 0);
                } else {
                    assert(m.gap_width(g) == 0 || m.gap_width(i) == 0);
                }
            }
            lemma_one_gap_free(m, g);
            assert(m.fits_at(g, size));
        } else {
            assert forall|i: int| 0 <= i <= n && i != n implies #[trigger] m.gap_width(i)
                == 0 by {}
            lemma_one_gap_free(m, n);
            assert(m.gap_width(n) == 0);
            assert(false);
        }
    }
}

/// Inserting a fresh allocation into the gap before position `i` keeps the
/// pool well formed and grows the occupied byte counts by its size.
proof fn lemma_insert_entry(m: PoolModel, i: int, a: AllocModel)
    requires
        m.wf(),
        0 <= i <= m.allocs.len(),
        a.offset == m.gap_start(i),
        a.offset + a.size <= m.gap_end(i),
        1 <= a.size,
        a.live,
        a.data.len() <= a.size,
        a.id == m.next_id,
        m.next_id < u64::MAX,
    ensures
        sorted_disjoint(m.allocs.insert(i, a)),
        entries_wf(m.allocs.insert(i, a), m.capacity),
        ids_unique(m.allocs.insert(i, a)),
        forall|k: int|
            0 <= k < m.allocs.insert(i, a).len() ==> (#[trigger] m.allocs.insert(i, a)[k]).id
                < m.next_id + 1,
        total_bytes(m.allocs.insert(i, a)) == total_bytes(m.allocs) + a.size,
        live_bytes(m.allocs.insert(i, a)) == live_bytes(m.allocs) + a.size,
{
    let s = m.allocs;
    let n = s.len() as int;
    let t = s.insert(i, a);
    assert(t.len() == n + 1);
    assert(forall|k: int| 0 <= k < i ==> #[trigger] t[k] == s[k]);
    assert(t[i] == a);
    assert(forall|k: int| i < k <= n ==> #[trigger] t[k] == s[k - 1]);
    // the new entry lies inside the region
    assert(0 <= a.offset) by {
        if i > 0 {
            assert(entry_wf(s[i - 1], m.capacity));
        }
    }
    assert(a.offset + a.size <= m.capacity) by {
        if i < n {
            assert(entry_wf(s[i], m.capacity));
        }
    }
    assert(entry_wf(a, m.capacity));
    // order is kept on both sides of the insertion
    assert forall|k: int, l: int|
        #![trigger t[k], t[l]]
        0 <= k < l < t.len() implies alloc_end(t[k]) <= t[l].offset by {
        if k < i && l == i {
            if k < i - 1 {
                assert(alloc_end(s[k]) <= s[i - 1].offset);
                assert(entry_wf(s[i - 1], m.capacity));
            }
        } else if k == i && l > i {
            assert(alloc_end(a) <= m.gap_end(i));
            if l > i + 1 {
                assert(alloc_end(s[i]) <= s[l - 1].offset);
                assert(entry_wf(s[i], m.capacity));
            }
        } else if k < i && l > i {
            if k < i - 1 {
                assert(alloc_end(s[k]) <= s[i - 1].offset);
                assert(entry_wf(s[i - 1], m.capacity));
            }
            assert(a.offset + a.size <= m.gap_end(i));
            if l > i + 1 {
                assert(alloc_end(s[i]) <= s[l - 1].offset);
                assert(entry_wf(s[i], m.capacity));
            }
        }
    }
    // identities stay distinct: the new one is larger than every old one
    assert forall|k: int, l: int|
        #![trigger t[k].id, t[l].id]
        0 <= k < l < t.len() implies t[k].id != t[l].id by {}
    // byte counts grow by the new entry's size
    assert(t =~= s.take(i) + seq![a] + s.skip(i));
    lemma_total_bytes_add(s.take(i) + seq![a], s.skip(i));
    lemma_total_bytes_add(s.take(i), seq![a]);
    lemma_live_bytes_add(s.take(i) + seq![a], s.skip(i));
    lemma_live_bytes_add(s.take(i), seq![a]);
    assert(seq![a].drop_last() =~= Seq::<AllocModel>::empty());
    assert(total_bytes(seq![a].drop_last()) == 0);
    assert(live_bytes(seq![a].drop_last()) == 0);
    assert(seq![a].last() == a);
    assert(total_bytes(seq![a]) == a.size);
    assert(live_bytes(seq![a]) == a.size);
    assert(s =~= s.take(i) + s.skip(i));
    lemma_total_bytes_add(s.take(i), s.skip(i));
    lemma_live_bytes_add(s.take(i), s.skip(i));
}

/// Removing one allocation keeps the pool well formed and shrinks the
/// occupied byte counts by its size.
proof fn lemma_remove_entry(m: PoolModel, i: int)
    requires
        m.wf(),
        0 <= i < m.allocs.len(),
    ensures
        sorted_disjoint(m.allocs.remove(i)),
        entries_wf(m.allocs.remove(i), m.capacity),
        ids_unique(m.allocs.remove(i)),
        forall|k: int|
            0 <= k < m.allocs.remove(i).len() ==> (#[trigger] m.allocs.remove(i)[k]).id
                < m.next_id,
        total_bytes(m.allocs.remove(i)) == total_bytes(m.allocs) - m.allocs[i].size,
        live_bytes(m.allocs.remove(i)) == live_bytes(m.allocs) - if m.allocs[i].live {
            m.allocs[i].size
        } else {
            0
        },
{
    let s = m.allocs;
    let n = s.len() as int;
    let t = s.remove(i);
    assert(forall|k: int| 0 <= k < i ==> #[trigger] t[k] == s[k]);
    assert(forall|k: int| i <= k < n - 1 ==> #[trigger] t[k] == s[k + 1]);
    assert forall|k: int, l: int|
        #![trigger t[k], t[l]]
        0 <= k < l < t.len() implies alloc_end(t[k]) <= t[l].offset by {
        if k < i && l >= i {
            assert(alloc_end(s[k]) <= s[l + 1].offset);
        } else if k >= i {
            assert(alloc_end(s[k + 1]) <= s[l + 1].offset);
        }
    }
    assert forall|k: int, l: int|
        #![trigger t[k].id, t[l].id]
        0 <= k < l < t.len() implies t[k].id != t[l].id by {
        if k < i && l >= i {
            assert(s[k].id != s[l + 1].id);
        } else if k >= i {
            assert(s[k + 1].id != s[l + 1].id);
        }
    }
    assert(t =~= s.take(i) + s.skip(i + 1));
    lemma_total_bytes_add(s.take(i), s.skip(i + 1));
    lemma_live_bytes_add(s.take(i), s.skip(i + 1));
    assert(s =~= (s.take(i) + seq![s[i]]) + s.skip(i + 1));
    lemma_total_bytes_add(s.take(i) + seq![s[i]], s.skip(i + 1));
    lemma_total_bytes_add(s.take(i), seq![s[i]]);
    lemma_live_bytes_add(s.take(i) + seq![s[i]], s.skip(i + 1));
    lemma_live_bytes_add(s.take(i), seq![s[i]]);
    assert(seq![s[i]].drop_last() =~= Seq::<AllocModel>::empty());
    assert(total_bytes(seq![s[i]].drop_last()) == 0);
    assert(live_bytes(seq![s[i]].drop_last()) == 0);
    assert(seq![s[i]].last() == s[i]);
}

/// Replacing one allocation by another with the same range and identity
/// keeps the pool well formed; only the reachable byte count may move.
proof fn lemma_update_entry(m: PoolModel, i: int, a: AllocModel)
    requires
        m.wf(),
        0 <= i < m.allocs.len(),
        a.offset == m.allocs[i].offset,
        a.size == m.allocs[i].size,
        a.id == m.allocs[i].id,
        a.data.len() <= a.size,
    ensures
        sorted_disjoint(m.allocs.update(i, a)),
        entries_wf(m.allocs.update(i, a), m.capacity),
        ids_unique(m.allocs.update(i, a)),
        forall|k: int|
            0 <= k < m.allocs.update(i, a).len() ==> (#[trigger] m.allocs.update(i, a)[k]).id
                < m.next_id,
        total_bytes(m.allocs.update(i, a)) == total_bytes(m.allocs),
        live_bytes(m.allocs.update(i, a)) == live_bytes(m.allocs) + (if a.live {
            a.size
        } else {
            0
        }) - (if m.allocs[i].live {
            m.allocs[i].size
        } else {
            0
        }),
{
    let s = m.allocs;
    let n = s.len() as int;
    let t = s.update(i, a);
    assert(entry_wf(s[i], m.capacity));
    assert forall|k: int, l: int|
        #![trigger t[k], t[l]]
        0 <= k < l < t.len() implies alloc_end(t[k]) <= t[l].offset by {
        assert(alloc_end(s[k]) <= s[l].offset);
    }
    assert forall|k: int, l: int|
        #![trigger t[k].id, t[l].id]
        0 <= k < l < t.len() implies t[k].id != t[l].id by {
        assert(s[k].id != s[l].id);
    }
    assert(t =~= (s.take(i) + seq![a]) + s.skip(i + 1));
    lemma_total_bytes_add(s.take(i) + seq![a], s.skip(i + 1));
    lemma_total_bytes_add(s.take(i), seq![a]);
    lemma_live_bytes_add(s.take(i) + seq![a], s.skip(i + 1));
    lemma_live_bytes_add(s.take(i), seq![a]);
    assert(seq![a].drop_last() =~= Seq::<AllocModel>::empty());
    assert(total_bytes(seq![a].drop_last()) == 0);
    assert(live_bytes(seq![a].drop_last()) == 0);
    assert(seq![a].last() == a);
    assert(s =~= (s.take(i) + seq![s[i]]) + s.skip(i + 1));
    lemma_total_bytes_add(s.take(i) + seq![s[i]], s.skip(i + 1));
    lemma_total_bytes_add(s.take(i), seq![s[i]]);
    lemma_live_bytes_add(s.take(i) + seq![s[i]], s.skip(i + 1));
    lemma_live_bytes_add(s.take(i), seq![s[i]]);
    assert(seq![s[i]].drop_last() =~= Seq::<AllocModel>::empty());
    assert(total_bytes(seq![s[i]].drop_last()) == 0);
    assert(live_bytes(seq![s[i]].drop_last()) == 0);
    assert(seq![s[i]].last() == s[i]);
}

// ---------------------------------------------------------------------------
// The pool itself
// ---------------------------------------------------------------------------

/// One allocation as the pool records it.
struct Allocation {
    id: u64,
    offset: usize,
    size: usize,
    live: bool,
    data: Vec<u8>,
}

impl View for Allocation {
    type V = AllocModel;

    closed spec fn view(&self) -> AllocModel {
        AllocModel {
            id: self.id as int,
            offset: self.offset as int,
            size: self.size as int,
            live: self.live,
            data: self.data@,
        }
    }
}

/// A lease on a contiguous range of the pool, identified by the lease
/// identity the pool stamped on it. The view of a handle is that identity.
#[derive(Clone, Copy, Debug)]
pub struct BufferHandle {
    id: u64,
}

impl View for BufferHandle {
    type V = int;

    closed spec fn view(&self) -> int {
        self.id as int
    }
}

/// A fixed-capacity pool of contiguous buffer allocations.
pub struct Pool {
    capacity: usize,
    next_id: u64,
    allocs: Vec<Allocation>,
}

/// The models of a sequence of recorded allocations.
spec fn models(v: Seq<Allocation>) -> Seq<AllocModel> {
    v.map_values(|a: Allocation| a@)
}

/// Removing the front allocation removes the front model.
proof fn lemma_models_remove_front(v: Seq<Allocation>)
    requires
        v.len() > 0,
    ensures
        models(v.remove(0)) == models(v).remove(0),
{
    assert forall|k: int| 0 <= k < models(v.remove(0)).len() implies #[trigger] models(
        v.remove(0),
    )[k] == models(v).remove(0)[k] by {
        assert(v.remove(0)[k] == v[k + 1]);
        assert(models(v)[k + 1] == v[k + 1]@);
    }
    assert(models(v.remove(0)) =~= models(v).remove(0));
}

/// Appending an allocation appends its model.
proof fn lemma_models_push(v: Seq<Allocation>, e: Allocation)
    ensures
        models(v.push(e)) == models(v).push(e@),
{
    assert forall|k: int| 0 <= k < models(v.push(e)).len() implies #[trigger] models(
        v.push(e),
    )[k] == models(v).push(e@)[k] by {
        if k < v.len() {
            assert(v.push(e)[k] == v[k]);
            assert(models(v)[k] == v[k]@);
        } else {
            assert(v.push(e)[k] == e);
        }
    }
    assert(models(v.push(e)) =~= models(v).push(e@));
}

impl View for Pool {
    type V = PoolModel;

    closed spec fn view(&self) -> PoolModel {
        PoolModel {
            capacity: self.capacity as int,
            next_id: self.next_id as int,
            allocs: models(self.allocs@),
        }
    }
}

impl Pool {
    /// An empty pool over a region of `capacity` bytes.
    pub fn new(capacity: usize) -> (pool: Pool)
        ensures
            pool@.wf(),
            pool@.capacity == capacity,
            pool@.next_id == 0,
            pool@.allocs.len() == 0,
    {
        let pool = Pool { capacity, next_id: 0, allocs: Vec::new() };
        proof {
            assert(pool@.allocs =~= Seq::<AllocModel>::empty());
        }
        pool
    }

    /// The fixed total capacity of the region, in bytes.
    pub fn capacity(&self) -> (r: usize)
        ensures
            r as int == self@.capacity,
    {
        self.capacity
    }

    /// Whether the pool can still mint a fresh lease identity.
    pub fn can_lease(&self) -> (r: bool)
        ensures
            r <==> self@.next_id < u64::MAX,
    {
        self.next_id < u64::MAX
    }

    /// How many allocations the pool currently records, reachable or not.
    pub fn alloc_count(&self) -> (r: usize)
        ensures
            r as int == self@.allocs.len(),
    {
        self.allocs.len()
    }

    /// Bytes not occupied by any allocation, contiguous or not.
    pub fn free_bytes(&self) -> (r: usize)
        requires
            self@.wf(),
        ensures
            r as int == self@.free_bytes(),
    {
        let ghost s = self@.allocs;
        let n = self.allocs.len();
        let mut used: usize = 0;
        let mut i: usize = 0;
        while i < n
            invariant
                self@.wf(),
                i <= n,
                n == self@.allocs.len(),
                used as int == total_bytes(s.take(i as int)),
                s == self@.allocs,
                used as int <= self@.capacity,
            decreases n - i,
        {
            proof {
                assert(s[i as int] == self.allocs@[i as int]@);
                assert(s.take(i as int + 1).drop_last() =~= s.take(i as int));
                assert(s.take(i as int + 1).last() == s[i as int]);
                lemma_range_bytes(s, 0, i as int + 1, self@.capacity);
                assert(s.take(i as int + 1) =~= s.subrange(0, i as int + 1));
                assert(entry_wf(s[i as int], self@.capacity));
            }
            used = used + self.allocs[i].size;
            i = i + 1;
        }
        proof {
            assert(s.take(n as int) =~= s);
        }
        self.capacity - used
    }

    /// Bytes occupied by reachable allocations.
    pub fn reachable_bytes(&self) -> (r: usize)
        requires
            self@.wf(),
        ensures
            r as int == self@.reachable_bytes(),
    {
        let ghost s = self@.allocs;
        let n = self.allocs.len();
        let mut used: usize = 0;
        let mut i: usize = 0;
        while i < n
            invariant
                self@.wf(),
                i <= n,
                n == self@.allocs.len(),
                used as int == live_bytes(s.take(i as int)),
                s == self@.allocs,
                used as int <= self@.capacity,
            decreases n - i,
        {
            proof {
                assert(s[i as int] == self.allocs@[i as int]@);
                assert(s.take(i as int + 1).drop_last() =~= s.take(i as int));
                assert(s.take(i as int + 1).last() == s[i as int]);
                lemma_live_le_total(s.take(i as int + 1));
                lemma_range_bytes(s, 0, i as int + 1, self@.capacity);
                assert(s.take(i as int + 1) =~= s.subrange(0, i as int + 1));
                assert(entry_wf(s[i as int], self@.capacity));
            }
            if self.allocs[i].live {
                used = used + self.allocs[i].size;
            }
            i = i + 1;
        }
        proof {
            assert(s.take(n as int) =~= s);
        }
        used
    }

    /// First-fit search: the leftmost free gap that can hold `size` bytes,
    /// as the insertion position and the byte offset of the gap's start.
    fn find_first_fit(&self, size: usize) -> (r: Option<(usize, usize)>)
        requires
            self@.wf(),
            1 <= size,
        ensures
            r is Some <==> self@.has_gap(size as int),
            r matches Some((i, off)) ==> {
                &&& 0 <= i as int <= self@.allocs.len()
                &&& self@.fits_at(i as int, size as int)
                &&& forall|j: int| 0 <= j < i as int ==> !self@.fits_at(j, size as int)
                &&& off as int == self@.gap_start(i as int)
            },
    {
        let ghost s = self@.allocs;
        let n = self.allocs.len();
        let mut i: usize = 0;
        let mut prev_end: usize = 0;
        while i < n
            invariant
                self@.wf(),
                1 <= size,
                i <= n,
                n == self@.allocs.len(),
                s == self@.allocs,
                prev_end as int == self@.gap_start(i as int),
                0 <= prev_end as int <= self@.capacity,
                forall|j: int| 0 <= j < i as int ==> !self@.fits_at(j, size as int),
            decreases n - i,
        {
            proof {
                assert(s[i as int] == self.allocs@[i as int]@);
                assert(entry_wf(s[i as int], self@.capacity));
            }
            let a_off = self.allocs[i].offset;
            if a_off >= size && prev_end <= a_off - size {
                assert(self@.fits_at(i as int, size as int));
                return Some((i, prev_end));
            }
            assert(!self@.fits_at(i as int, size as int));
            prev_end = self.allocs[i].offset + self.allocs[i].size;
            i = i + 1;
        }
        if self.capacity >= size && prev_end <= self.capacity - size {
            assert(self@.fits_at(n as int, size as int));
            return Some((n, prev_end));
        }
        assert(!self@.fits_at(n as int, size as int));
        assert(!self@.has_gap(size as int));
        None
    }

    /// Directly allocate `size` bytes from the leftmost free gap that can
    /// hold them. Succeeds exactly when some contiguous free gap is large
    /// enough; the pool is unchanged on failure.
    pub fn allocate(&mut self, size: usize) -> (r: Option<BufferHandle>)
        requires
            old(self)@.wf(),
            1 <= size,
            old(self)@.next_id < u64::MAX,
        ensures
            final(self)@.wf(),
            final(self)@.capacity == old(self)@.capacity,
            r is Some <==> old(self)@.has_gap(size as int),
            r is None ==> final(self)@ == old(self)@,
            r matches Some(h) ==> {
                &&& h@ == old(self)@.next_id
                &&& final(self)@.next_id == old(self)@.next_id + 1
                &&& exists|i: int|
                    0 <= i <= old(self)@.allocs.len() && #[trigger] old(self)@.fits_at(
                        i,
                        size as int,
                    ) && (forall|j: int| 0 <= j < i ==> !old(self)@.fits_at(j, size as int))
                        && final(self)@.allocs == old(self)@.allocs.insert(
                        i,
                        AllocModel {
                            id: old(self)@.next_id,
                            offset: old(self)@.gap_start(i),
                            size: size as int,
                            live: true,
                            data: Seq::empty(),
                        },
                    )
                &&& final(self)@.free_bytes() == old(self)@.free_bytes() - size
                &&& final(self)@.reachable_bytes() == old(self)@.reachable_bytes() + size
            },
    {
        let ghost m = self@;
        match self.find_first_fit(size) {
            None => None,
            Some((i, off)) => {
                let id = self.next_id;
                let entry = Allocation { id, offset: off, size, live: true, data: Vec::new() };
                let ghost am = AllocModel {
                    id: id as int,
                    offset: off as int,
                    size: size as int,
                    live: true,
                    data: Seq::empty(),
                };
                proof {
                    assert(entry@ == am);
                    lemma_insert_entry(m, i as int, am);
                }
                self.allocs.insert(i, entry);
                self.next_id = id + 1;
                proof {
                    assert(self@.allocs =~= m.allocs.insert(i as int, am));
                    assert(self@.wf());
                }
                Some(BufferHandle { id })
            },
        }
    }

    /// Position of the allocation carrying this lease identity, if any.
    fn find_index(&self, id: u64) -> (r: Option<usize>)
        requires
            self@.wf(),
        ensures
            r is Some <==> self@.has_id(id as int),
            r matches Some(i) ==> {
                &&& 0 <= (i as int) < self@.allocs.len()
                &&& self@.allocs[i as int].id == id as int
            },
    {
        let ghost s = self@.allocs;
        let n = self.allocs.len();
        let mut i: usize = 0;
        while i < n
            invariant
                i <= n,
                n == self@.allocs.len(),
                s == self@.allocs,
                forall|j: int| 0 <= j < i as int ==> s[j].id != id as int,
            decreases n - i,
        {
            proof {
                assert(s[i as int] == self.allocs@[i as int]@);
            }
            if self.allocs[i].id == id {
                return Some(i);
            }
            i = i + 1;
        }
        None
    }

    /// Return a leased range to the pool: the allocation disappears and its
    /// bytes become free space at once. Answers whether the handle named a
    /// current allocation.
    pub fn release(&mut self, h: &BufferHandle) -> (found: bool)
        requires
            old(self)@.wf(),
        ensures
            final(self)@.wf(),
            final(self)@.capacity == old(self)@.capacity,
            final(self)@.next_id == old(self)@.next_id,
            found <==> old(self)@.has_id(h@),
            !found ==> final(self)@ == old(self)@,
            found ==> exists|i: int|
                0 <= i < old(self)@.allocs.len() && #[trigger] old(self)@.allocs[i].id == h@
                    && final(self)@.allocs == old(self)@.allocs.remove(i) && final(self)@.free_bytes()
                    == old(self)@.free_bytes() + old(self)@.allocs[i].size
                    && final(self)@.reachable_bytes() == old(self)@.reachable_bytes()
                    - (if old(self)@.allocs[i].live {
                    old(self)@.allocs[i].size
                } else {
                    0int
                }),
    {
        let ghost m = self@;
        match self.find_index(h.id) {
            None => false,
            Some(i) => {
                proof {
                    lemma_remove_entry(m, i as int);
                }
                self.allocs.remove(i);
                proof {
                    assert(self@.allocs =~= m.allocs.remove(i as int));
                }
                true
            },
        }
    }

    /// Record that the holder of this lease is gone without having released
    /// it: the allocation stays in place, unreachable, until `reclaim` frees
    /// it. Answers whether the handle named a current allocation.
    pub fn abandon(&mut self, h: &BufferHandle) -> (found: bool)
        requires
            old(self)@.wf(),
        ensures
            final(self)@.wf(),
            final(self)@.capacity == old(self)@.capacity,
            final(self)@.next_id == old(self)@.next_id,
            found <==> old(self)@.has_id(h@),
            !found ==> final(self)@ == old(self)@,
            found ==> exists|i: int|
                0 <= i < old(self)@.allocs.len() && #[trigger] old(self)@.allocs[i].id == h@
                    && final(self)@.allocs == old(self)@.allocs.update(
                    i,
                    AllocModel { live: false, ..old(self)@.allocs[i] },
                ) && final(self)@.free_bytes() == old(self)@.free_bytes()
                    && final(self)@.reachable_bytes() == old(self)@.reachable_bytes()
                    - (if old(self)@.allocs[i].live {
                    old(self)@.allocs[i].size
                } else {
                    0int
                }),
    {
        let ghost m = self@;
        match self.find_index(h.id) {
            None => false,
            Some(i) => {
                let mut e = self.allocs.remove(i);
                e.live = false;
                proof {
                    assert(e@ == AllocModel { live: false, ..m.allocs[i as int] });
                    lemma_update_entry(m, i as int, e@);
                }
                self.allocs.insert(i, e);
                proof {
                    assert(self@.allocs =~= m.allocs.update(i as int, e@));
                }
                true
            },
        }
    }

    /// Copy `payload` into the leased buffer, replacing its previous
    /// content. Succeeds exactly when the handle names a reachable
    /// allocation whose size can hold the payload; the pool is unchanged
    /// otherwise.
    pub fn write(&mut self, h: &BufferHandle, payload: &Vec<u8>) -> (ok: bool)
        requires
            old(self)@.wf(),
        ensures
            final(self)@.wf(),
            final(self)@.capacity == old(self)@.capacity,
            final(self)@.next_id == old(self)@.next_id,
            ok <==> exists|i: int|
                0 <= i < old(self)@.allocs.len() && #[trigger] old(self)@.allocs[i].id == h@
                    && old(self)@.allocs[i].live && payload@.len() <= old(self)@.allocs[i].size,
            !ok ==> final(self)@ == old(self)@,
            ok ==> exists|i: int|
                0 <= i < old(self)@.allocs.len() && #[trigger] old(self)@.allocs[i].id == h@
                    && final(self)@.allocs == old(self)@.allocs.update(
                    i,
                    AllocModel { data: payload@, ..old(self)@.allocs[i] },
                ) && final(self)@.free_bytes() == old(self)@.free_bytes()
                    && final(self)@.reachable_bytes() == old(self)@.reachable_bytes(),
    {
        let ghost m = self@;
        match self.find_index(h.id) {
            None => false,
            Some(i) => {
                proof {
                    assert(self.allocs@[i as int]@ == m.allocs[i as int]);
                }
                if !self.allocs[i].live || payload.len() > self.allocs[i].size {
                    return false;
                }
                let mut e = self.allocs.remove(i);
                let mut d: Vec<u8> = Vec::new();
                let mut k: usize = 0;
                let p_len = payload.len();
                while k < p_len
                    invariant
                        k <= p_len,
                        p_len == payload@.len(),
                        d@ == payload@.take(k as int),
                    decreases p_len - k,
                {
                    d.push(payload[k]);
                    proof {
                        assert(d@ =~= payload@.take(k as int + 1));
                    }
                    k = k + 1;
                }
                proof {
                    assert(d@ =~= payload@);
                }
                e.data = d;
                proof {
                    assert(e@ == AllocModel { data: payload@, ..m.allocs[i as int] });
                    lemma_update_entry(m, i as int, e@);
                }
                self.allocs.insert(i, e);
                proof {
                    assert(self@.allocs =~= m.allocs.update(i as int, e@));
                }
                true
            },
        }
    }

    /// Copy of the content written so far into the leased buffer, if the
    /// handle names a current allocation.
    pub fn read(&self, h: &BufferHandle) -> (r: Option<Vec<u8>>)
        requires
            self@.wf(),
        ensures
            r is Some <==> self@.has_id(h@),
            r matches Some(d) ==> exists|i: int|
                0 <= i < self@.allocs.len() && #[trigger] self@.allocs[i].id == h@ && d@
                    == self@.allocs[i].data,
    {
        match self.find_index(h.id) {
            None => None,
            Some(i) => {
                proof {
                    assert(self.allocs@[i as int]@ == self@.allocs[i as int]);
                }
                let src = &self.allocs[i].data;
                let mut d: Vec<u8> = Vec::new();
                let mut k: usize = 0;
                let s_len = src.len();
                while k < s_len
                    invariant
                        k <= s_len,
                        s_len == src@.len(),
                        d@ == src@.take(k as int),
                    decreases s_len - k,
                {
                    d.push(src[k]);
                    proof {
                        assert(d@ =~= src@.take(k as int + 1));
                    }
                    k = k + 1;
                }
                proof {
                    assert(d@ =~= src@);
                }
                Some(d)
            },
        }
    }

    /// Garbage collection: free the space of every unreachable allocation.
    /// Returns the number of bytes freed — zero exactly when no unreachable
    /// allocation existed, in which case the pool is untouched.
    pub fn reclaim(&mut self) -> (freed: usize)
        requires
            old(self)@.wf(),
        ensures
            final(self)@.wf(),
            final(self)@.capacity == old(self)@.capacity,
            final(self)@.next_id == old(self)@.next_id,
            final(self)@.allocs == live_filter(old(self)@.allocs),
            freed as int == total_bytes(old(self)@.allocs) - live_bytes(old(self)@.allocs),
            final(self)@.free_bytes() == old(self)@.free_bytes() + freed,
            final(self)@.reachable_bytes() == old(self)@.reachable_bytes(),
            freed == 0 <==> old(self)@.no_unreachable(),
            old(self)@.no_unreachable() ==> final(self)@ == old(self)@,
    {
        let ghost m = self@;
        let ghost s = m.allocs;
        let n = self.allocs.len();
        let ghost cap0 = self.capacity;
        let ghost nid0 = self.next_id;
        let mut kept: Vec<Allocation> = Vec::new();
        let mut freed: usize = 0;
        let mut i: usize = 0;
        proof {
            assert(models(kept@) =~= Seq::<AllocModel>::empty());
            assert(s.take(0) =~= Seq::<AllocModel>::empty());
            assert(s.skip(0) =~= s);
        }
        while i < n
            invariant
                m.wf(),
                s == m.allocs,
                i <= n,
                n == s.len(),
                self.capacity == cap0,
                self.next_id == nid0,
                models(self.allocs@) == s.skip(i as int),
                models(kept@) == live_filter(s.take(i as int)),
                freed as int == total_bytes(s.take(i as int)) - live_bytes(s.take(i as int)),
                0 <= freed as int <= m.capacity,
            decreases n - i,
        {
            proof {
                assert(models(self.allocs@).len() == self.allocs@.len());
                assert(models(self.allocs@)[0] == self.allocs@[0]@);
                assert(self.allocs@[0]@ == s.skip(i as int)[0]);
                assert(s.skip(i as int)[0] == s[i as int]);
                assert(s.take(i as int + 1).drop_last() =~= s.take(i as int));
                assert(s.take(i as int + 1).last() == s[i as int]);
                lemma_live_le_total(s.take(i as int + 1));
                lemma_range_bytes(s, 0, i as int + 1, m.capacity);
                assert(s.take(i as int + 1) =~= s.subrange(0, i as int + 1));
                assert(entry_wf(s[i as int], m.capacity));
            }
            let ghost v0 = self.allocs@;
            let e = self.allocs.remove(0);
            proof {
                assert(e@ == s[i as int]);
                lemma_models_remove_front(v0);
                assert(models(v0).remove(0) =~= s.skip(i as int + 1));
            }
            if e.live {
                let ghost k0 = kept@;
                kept.push(e);
                proof {
                    lemma_models_push(k0, e);
                }
            } else {
                freed = freed + e.size;
            }
            i = i + 1;
        }
        proof {
            assert(s.take(n as int) =~= s);
        }
        self.allocs = kept;
        proof {
            lemma_live_filter(s, m.capacity);
            assert forall|k: int|
                0 <= k < live_filter(s).len() implies (#[trigger] live_filter(s)[k]).id
                < m.next_id by {
                let j = choose|j: int|
                    0 <= j < s.len() && #[trigger] live_filter(s)[k] == #[trigger] s[j];
                assert(s[j].id < m.next_id);
            }
            assert(self@.wf());
            assert forall|k: int|
                0 <= k < live_filter(s).len() implies (#[trigger] live_filter(s)[k]).size
                >= 0 by {
                let j = choose|j: int|
                    0 <= j < s.len() && #[trigger] live_filter(s)[k] == #[trigger] s[j];
                assert(entry_wf(s[j], m.capacity));
            }
            lemma_live_bytes_all_live(live_filter(s));
            if m.no_unreachable() {
                lemma_live_filter_all_live(s);
                lemma_live_le_total(s);
            }
            if total_bytes(s) == live_bytes(s) {
                lemma_no_dead_bytes_all_live(s, m.capacity);
            }
        }
        freed
    }

    /// Whether the free bytes already form at most one contiguous region.
    fn free_is_contiguous(&self) -> (r: bool)
        requires
            self@.wf(),
        ensures
            r <==> self@.free_contiguous(),
    {
        let ghost m = self@;
        let n = self.allocs.len();
        let mut i: usize = 0;
        let mut prev_end: usize = 0;
        let mut seen: bool = false;
        while i < n
            invariant
                m.wf(),
                m == self@,
                i <= n,
                n == m.allocs.len(),
                prev_end as int == m.gap_start(i as int),
                0 <= prev_end as int <= m.capacity,
                seen <==> exists|j: int| 0 <= j < i as int && #[trigger] m.gap_width(j) > 0,
                forall|j: int, k: int|
                    #![trigger m.gap_width(j), m.gap_width(k)]
                    0 <= j < k < i as int ==> (m.gap_width(j) == 0 || m.gap_width(k) == 0),
            decreases n - i,
        {
            proof {
                assert(m.allocs[i as int] == self.allocs@[i as int]@);
                assert(entry_wf(m.allocs[i as int], m.capacity));
                assert(prev_end as int <= m.allocs[i as int].offset);
            }
            let off = self.allocs[i].offset;
            if off > prev_end {
                assert(m.gap_width(i as int) > 0);
                if seen {
                    proof {
                        let j = choose|j: int|
                            0 <= j < i as int && #[trigger] m.gap_width(j) > 0;
                        assert(m.gap_width(j) > 0 && m.gap_width(i as int) > 0 && j < i as int);
                    }
                    return false;
                }
                seen = true;
            }
            prev_end = self.allocs[i].offset + self.allocs[i].size;
            i = i + 1;
        }
        proof {
            assert(m.gap_width(n as int) == m.capacity - prev_end);
        }
        if self.capacity > prev_end {
            if seen {
                proof {
                    let j = choose|j: int| 0 <= j < n as int && #[trigger] m.gap_width(j) > 0;
                    assert(m.gap_width(j) > 0 && m.gap_width(n as int) > 0 && j < n as int);
                }
                return false;
            }
        }
        proof {
            assert forall|j: int, k: int|
                #![trigger m.gap_width(j), m.gap_width(k)]
                0 <= j < k <= n as int implies (m.gap_width(j) == 0 || m.gap_width(k)
                == 0) by {
                if k == n as int {
                    if m.gap_width(k) > 0 {
                        assert(!seen);
                    }
                }
            }
        }
        true
    }

    /// Defragmentation: when free space is scattered over two or more gaps,
    /// slide every allocation towards the front of the region, in order, so
    /// that all free space becomes one contiguous tail extent; leases keep
    /// their identity, size, reachability and content. Returns the number
    /// of formerly scattered free bytes coalesced into the tail — zero
    /// exactly when free space already formed at most one contiguous
    /// region, in which case the pool is untouched.
    pub fn compact(&mut self) -> (coalesced: usize)
        requires
            old(self)@.wf(),
        ensures
            final(self)@.wf(),
            final(self)@.capacity == old(self)@.capacity,
            final(self)@.next_id == old(self)@.next_id,
            final(self)@.free_bytes() == old(self)@.free_bytes(),
            final(self)@.reachable_bytes() == old(self)@.reachable_bytes(),
            coalesced == 0 <==> old(self)@.free_contiguous(),
            old(self)@.free_contiguous() ==> final(self)@ == old(self)@,
            !old(self)@.free_contiguous() ==> {
                &&& final(self)@.allocs == pack(old(self)@.allocs)
                &&& final(self)@.is_packed()
                &&& coalesced as int == alloc_end(old(self)@.allocs.last()) - total_bytes(
                    old(self)@.allocs,
                )
            },
            final(self)@.free_contiguous(),
    {
        let ghost m = self@;
        let ghost s = m.allocs;
        if self.free_is_contiguous() {
            return 0;
        }
        let n = self.allocs.len();
        let ghost cap0 = self.capacity;
        let ghost nid0 = self.next_id;
        let tail_end: usize = if n == 0 {
            0
        } else {
            proof {
                assert(self.allocs@[n - 1]@ == s[n - 1]);
                assert(entry_wf(s[n - 1], m.capacity));
            }
            self.allocs[n - 1].offset + self.allocs[n - 1].size
        };
        let mut packed: Vec<Allocation> = Vec::new();
        let mut cursor: usize = 0;
        let mut i: usize = 0;
        proof {
            assert(models(packed@) =~= Seq::<AllocModel>::empty());
            assert(s.take(0) =~= Seq::<AllocModel>::empty());
            assert(s.skip(0) =~= s);
        }
        while i < n
            invariant
                m.wf(),
                s == m.allocs,
                i <= n,
                n == s.len(),
                self.capacity == cap0,
                self.next_id == nid0,
                models(self.allocs@) == s.skip(i as int),
                models(packed@) == pack(s.take(i as int)),
                cursor as int == total_bytes(s.take(i as int)),
                0 <= cursor as int <= m.capacity,
            decreases n - i,
        {
            proof {
                assert(models(self.allocs@).len() == self.allocs@.len());
                assert(models(self.allocs@)[0] == self.allocs@[0]@);
                assert(self.allocs@[0]@ == s.skip(i as int)[0]);
                assert(s.skip(i as int)[0] == s[i as int]);
                assert(s.take(i as int + 1).drop_last() =~= s.take(i as int));
                assert(s.take(i as int + 1).last() == s[i as int]);
                lemma_range_bytes(s, 0, i as int + 1, m.capacity);
                assert(s.take(i as int + 1) =~= s.subrange(0, i as int + 1));
                assert(entry_wf(s[i as int], m.capacity));
            }
            let ghost v0 = self.allocs@;
            let mut e = self.allocs.remove(0);
            proof {
                assert(e@ == s[i as int]);
                lemma_models_remove_front(v0);
                assert(models(v0).remove(0) =~= s.skip(i as int + 1));
            }
            e.offset = cursor;
            proof {
                assert(e@ == AllocModel { offset: cursor as int, ..s[i as int] });
            }
            cursor = cursor + e.size;
            let ghost p0 = packed@;
            packed.push(e);
            proof {
                lemma_models_push(p0, e);
                assert(models(packed@) == pack(s.take(i as int)).push(
                    AllocModel { offset: total_bytes(s.take(i as int)), ..s[i as int] },
                ));
            }
            i = i + 1;
        }
        proof {
            assert(s.take(n as int) =~= s);
        }
        self.allocs = packed;
        proof {
            lemma_pack(s, m.capacity);
            assert forall|k: int|
                0 <= k < pack(s).len() implies (#[trigger] pack(s)[k]).id < m.next_id by {
                assert(pack(s)[k] == AllocModel { offset: total_bytes(s.take(k)), ..s[k] });
                assert(s[k].id < m.next_id);
            }
            assert(self@.wf());
            lemma_packed_free_contiguous(self@);
            // two gaps hold bytes, so at least one non-tail gap does, and a
            // pool whose allocations end at their total byte count has none
            assert(n > 0);
            lemma_total_le_last_end(s, m.capacity);
            if alloc_end(s.last()) == total_bytes(s) {
                lemma_tight_tail_is_packed(s, m.capacity);
                lemma_packed_free_contiguous(m);
                assert(false);
            }
        }
        tail_end - cursor
    }
}

} // verus!
