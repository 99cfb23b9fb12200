//! The decisions a cache makes around its storage: when pending inserts
//! are flushed to the persistence disk.

use vstd::prelude::*;

use crate::storage::StorageFlushStrategy;

verus! {

/// Whether `pending_inserts` inserts since the last flush call for a flush:
/// never, always, or once there are at least the given number.
pub open spec fn flush_due(strategy: StorageFlushStrategy, pending_inserts: nat) -> bool {
    match strategy {
        StorageFlushStrategy::Never => false,
        StorageFlushStrategy::Immediately => true,
        StorageFlushStrategy::RecordCount(count) => pending_inserts >= count,
    }
}

/// Whether the pending inserts call for a flush (see [`flush_due`]).
pub fn should_flush(strategy: &StorageFlushStrategy, pending_inserts: usize) -> (r: bool)
    ensures
        r == flush_due(*strategy, pending_inserts as nat),
{
    match strategy {
        StorageFlushStrategy::Never => false,
        StorageFlushStrategy::Immediately => true,
        StorageFlushStrategy::RecordCount(count) => pending_inserts >= *count,
    }
}

/// The bookkeeping of one insert: the pending count grows by one, and if
/// a flush is then due the cache flushes and the count restarts at zero.
/// Returns whether to flush and the new pending count. The count cannot
/// pass `usize::MAX`, where the addition would panic; `requires` says so.
pub fn after_insert(strategy: &StorageFlushStrategy, pending_inserts: usize) -> (r: (bool, usize))
    requires
        pending_inserts < usize::MAX,
    ensures
        r.0 == flush_due(*strategy, (pending_inserts + 1) as nat),
        r.1 == (if r.0 {
            0
        } else {
            pending_inserts + 1
        }),
{
    let pending = pending_inserts + 1;
    if should_flush(strategy, pending) {
        (true, 0)
    } else {
        (false, pending)
    }
}

/// With `RecordCount(n)` and `n` at least one, a pending count below `n`
/// stays below `n`, and an insert flushes exactly when it is the `n`-th
/// since the last flush.
pub proof fn lemma_record_count_flushes(n: usize, pending_inserts: usize)
    requires
        1 <= n,
        pending_inserts < n,
    ensures
        flush_due(StorageFlushStrategy::RecordCount(n), (pending_inserts + 1) as nat) <==> pending_inserts + 1
            == n,
        (if flush_due(StorageFlushStrategy::RecordCount(n), (pending_inserts + 1) as nat) {
            0
        } else {
            pending_inserts + 1
        }) < n,
{
}

/// `Never` never flushes and `Immediately` flushes after every insert.
pub proof fn lemma_never_and_immediately(pending_inserts: nat)
    ensures
        !flush_due(StorageFlushStrategy::Never, pending_inserts),
        flush_due(StorageFlushStrategy::Immediately, pending_inserts),
{
}

} // verus!
