//! A capacity-bounded buffer pool and the allocation client built on it.
//!
//! `pool` models a shared-memory pool: a fixed capacity, a set of
//! non-overlapping allocations, reclamation of abandoned allocations and
//! compaction of fragmented free space. `client` implements the
//! allocate / backoff / reclaim / compact / retry-once protocol that a
//! producer uses to obtain buffers from such a pool.

pub mod client;
pub mod pool;
