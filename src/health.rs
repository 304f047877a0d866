use vstd::prelude::*;
use crate::pool::{with_liveness, BackendPool, PoolView};

verus! {

/// Publishes the outcome of health probes into the pool. The probing itself
/// (the requests, their timeouts, the interval) is done by the caller.
pub struct HealthChecker;

impl HealthChecker {
    /// Records one probe of backend `id`: alive on success, not alive on
    /// any failure or timeout. Does nothing where there is no such backend.
    pub fn record(pool: &mut BackendPool, id: usize, probe_succeeded: bool)
        requires
            old(pool).wf(),
        ensures
            final(pool).wf(),
            final(pool)@ == (PoolView {
                entries: with_liveness(old(pool)@.entries, id as int, probe_succeeded),
                ..old(pool)@
            }),
    {
        pool.mark_alive(id, probe_succeeded);
    }
}

} // verus!
