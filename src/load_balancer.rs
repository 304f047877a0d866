use std::sync::Arc;
use vstd::prelude::*;
use crate::backend::BackendServer;
use crate::error::AppError;
use crate::pool::{
    distinct_backends, distinct_identities, distinct_servers, entry_views, is_least_loaded,
    lemma_picks_alive, none_alive, with_connection_added, BackendPool, EntryView, PoolEntry, PoolView,
};

verus! {

/// `b` holds the same backends as `a`, with the same liveness and weights.
pub open spec fn same_backends(a: Seq<EntryView>, b: Seq<EntryView>) -> bool {
    &&& a.len() == b.len()
    &&& forall|i: int|
        0 <= i < a.len() ==> {
            &&& (#[trigger] b[i]).backend == a[i].backend
            &&& b[i].alive == a[i].alive
            &&& b[i].weight == a[i].weight
        }
}

/// A policy that picks one backend of its pool per call.
pub trait LoadBalancer {
    /// The pool that the balancer selects from.
    spec fn backend_pool(&self) -> BackendPool;

    /// Picks a backend. Whatever the cursors, weights and connection counts,
    /// the backend returned is one that is marked alive; where none is,
    /// the call fails with `NoBackendAvailable`. Backends, liveness and
    /// weights are left as they were.
    fn select_backend(&mut self) -> (r: Result<Arc<BackendServer>, AppError>)
        requires
            old(self).backend_pool().wf(),
        ensures
            final(self).backend_pool().wf(),
            same_backends(old(self).backend_pool()@.entries, final(self).backend_pool()@.entries),
            match r {
                Ok(b) => exists|i: int|
                    0 <= i < old(self).backend_pool()@.len()
                        && #[trigger] old(self).backend_pool()@.entries[i].alive
                        && b@ == old(self).backend_pool()@.entries[i].backend,
                Err(e) => e is NoBackendAvailable,
            },
            none_alive(old(self).backend_pool()@.entries) ==> r is Err,
    ;
}

/// Selects the backends in construction order, cyclically, skipping dead ones.
pub struct RoundRobinLoadBalancer {
    pub pool: BackendPool,
}

impl RoundRobinLoadBalancer {
    /// A balancer over `backends`, each alive with weight one. Fails with
    /// `ConfigError` exactly when `backends` is empty or names one backend twice.
    pub fn new(backends: Vec<Arc<BackendServer>>) -> (r: Result<Self, AppError>)
        ensures
            r is Err <==> backends@.len() == 0 || !distinct_servers(backends@),
            r matches Err(e) ==> e is ConfigError,
            r matches Ok(lb) ==> {
                &&& lb.pool.wf()
                &&& lb.pool@.len() == backends@.len()
                &&& forall|i: int|
                    0 <= i < backends@.len() ==> #[trigger] lb.pool@.entries[i] == (EntryView {
                        backend: backends@[i]@,
                        alive: true,
                        weight: 1,
                        active_connections: 0,
                    })
                &&& lb.pool@.cursor == 0
            },
    {
        let mut weighted: Vec<(Arc<BackendServer>, u32)> = Vec::new();
        let mut i: usize = 0;
        while i < backends.len()
            invariant
                i <= backends.len(),
                weighted@.len() == i,
                forall|t: int|
                    0 <= t < i ==> (#[trigger] weighted@[t]).0@ == backends@[t]@ && weighted@[t].1
                        == 1,
            decreases backends.len() - i,
        {
            weighted.push((Arc::clone(&backends[i]), 1));
            i += 1;
        }
        proof {
            if distinct_servers(backends@) {
                assert forall|a: int, b: int| 0 <= a < b < weighted@.len() implies #[trigger] weighted@[a].0@
                    != #[trigger] weighted@[b].0@ by {
                    assert(backends@[a]@ != backends@[b]@);
                }
            }
            if distinct_identities(weighted@) {
                assert forall|a: int, b: int| 0 <= a < b < backends@.len() implies #[trigger] backends@[a]@
                    != #[trigger] backends@[b]@ by {
                    assert(weighted@[a].0@ != weighted@[b].0@);
                }
            }
        }
        match BackendPool::new(weighted) {
            Ok(pool) => Ok(RoundRobinLoadBalancer { pool }),
            Err(e) => Err(e),
        }
    }
}

impl LoadBalancer for RoundRobinLoadBalancer {
    open spec fn backend_pool(&self) -> BackendPool {
        self.pool
    }

    fn select_backend(&mut self) -> (r: Result<Arc<BackendServer>, AppError>)
        ensures
            final(self).pool@ == (PoolView { cursor: old(self).pool@.next_cursor(), ..old(self).pool@ }),
            match r {
                Ok(b) => old(self).pool@.round_robin_pick() matches Some(i) && b@
                    == old(self).pool@.entries[i].backend,
                Err(_) => old(self).pool@.round_robin_pick() is None,
            },
            r is Err <==> none_alive(old(self).pool@.entries),
    {
        proof {
            lemma_picks_alive(self.pool@);
        }
        match self.pool.select_round_robin() {
            Ok(i) => Ok(self.pool.backend_at(i)),
            Err(e) => Err(e),
        }
    }
}

/// Selects each backend in proportion to its weight, following the schedule
/// in which backend `i` fills `weight_i` consecutive slots; where the slot's
/// backend is down, the next alive backend of weight above zero is taken.
pub struct WeightedRoundRobinLoadBalancer {
    pub pool: BackendPool,
}

impl WeightedRoundRobinLoadBalancer {
    /// A balancer over `backends` with their weights, each alive. Fails with
    /// `ConfigError` exactly when `backends` is empty or names one backend twice.
    pub fn new(backends: Vec<(Arc<BackendServer>, u32)>) -> (r: Result<Self, AppError>)
        ensures
            r is Err <==> backends@.len() == 0 || !distinct_identities(backends@),
            r matches Err(e) ==> e is ConfigError,
            r matches Ok(lb) ==> {
                &&& lb.pool.wf()
                &&& lb.pool@.len() == backends@.len()
                &&& forall|i: int|
                    0 <= i < backends@.len() ==> #[trigger] lb.pool@.entries[i] == (EntryView {
                        backend: backends@[i].0@,
                        alive: true,
                        weight: backends@[i].1,
                        active_connections: 0,
                    })
                &&& lb.pool@.schedule_cursor == 0
            },
    {
        match BackendPool::new(backends) {
            Ok(pool) => Ok(WeightedRoundRobinLoadBalancer { pool }),
            Err(e) => Err(e),
        }
    }
}

impl LoadBalancer for WeightedRoundRobinLoadBalancer {
    open spec fn backend_pool(&self) -> BackendPool {
        self.pool
    }

    fn select_backend(&mut self) -> (r: Result<Arc<BackendServer>, AppError>)
        ensures
            final(self).pool@ == (PoolView {
                schedule_cursor: old(self).pool@.next_schedule_cursor(),
                ..old(self).pool@
            }),
            match r {
                Ok(b) => old(self).pool@.weighted_pick() matches Some(i) && b@
                    == old(self).pool@.entries[i].backend,
                Err(_) => old(self).pool@.weighted_pick() is None,
            },
            r is Err <==> none_alive(old(self).pool@.entries),
    {
        proof {
            lemma_picks_alive(self.pool@);
        }
        match self.pool.select_weighted() {
            Ok(i) => Ok(self.pool.backend_at(i)),
            Err(e) => Err(e),
        }
    }
}

/// Selects the alive backend with the fewest active connections and counts
/// one more connection on it.
pub struct LeastConnectionsLoadBalancer {
    pub pool: BackendPool,
}

impl LeastConnectionsLoadBalancer {
    /// A balancer over `backends` with their current connection counts, each
    /// alive with weight one. Fails with `ConfigError` exactly when
    /// `backends` is empty or names one backend twice.
    pub fn new(backends: Vec<(Arc<BackendServer>, usize)>) -> (r: Result<Self, AppError>)
        ensures
            r is Err <==> backends@.len() == 0 || !distinct_identities(backends@),
            r matches Err(e) ==> e is ConfigError,
            r matches Ok(lb) ==> {
                &&& lb.pool.wf()
                &&& lb.pool@.len() == backends@.len()
                &&& forall|i: int|
                    0 <= i < backends@.len() ==> #[trigger] lb.pool@.entries[i] == (EntryView {
                        backend: backends@[i].0@,
                        alive: true,
                        weight: 1,
                        active_connections: backends@[i].1,
                    })
            },
    {
        let mut entries: Vec<PoolEntry> = Vec::new();
        let mut i: usize = 0;
        while i < backends.len()
            invariant
                i <= backends.len(),
                entries@.len() == i,
                forall|t: int|
                    0 <= t < i ==> #[trigger] entries@[t]@ == (EntryView {
                        backend: backends@[t].0@,
                        alive: true,
                        weight: 1,
                        active_connections: backends@[t].1,
                    }),
            decreases backends.len() - i,
        {
            let backend = Arc::clone(&backends[i].0);
            entries.push(PoolEntry { backend, alive: true, weight: 1, active_connections: backends[i].1 });
            i += 1;
        }
        proof {
            let ev = entry_views(entries@);
            assert forall|a: int| 0 <= a < ev.len() implies #[trigger] ev[a].backend == backends@[a].0@ by {
                assert(entries@[a]@ == ev[a]);
            }
            if distinct_identities(backends@) {
                assert forall|a: int, b: int| 0 <= a < b < ev.len() implies #[trigger] ev[a].backend
                    != #[trigger] ev[b].backend by {
                    assert(backends@[a].0@ != backends@[b].0@);
                }
            }
            if distinct_backends(ev) {
                assert forall|a: int, b: int| 0 <= a < b < backends@.len() implies #[trigger] backends@[a].0@
                    != #[trigger] backends@[b].0@ by {
                    assert(ev[a].backend != ev[b].backend);
                }
            }
        }
        match BackendPool::from_entries(entries) {
            Ok(pool) => Ok(LeastConnectionsLoadBalancer { pool }),
            Err(e) => Err(e),
        }
    }
}

impl LoadBalancer for LeastConnectionsLoadBalancer {
    open spec fn backend_pool(&self) -> BackendPool {
        self.pool
    }

    /// Scans and counts the new connection in one step: returns the alive
    /// backend with the fewest connections (the first on a tie) and counts one
    /// more connection on it. Fails, changing nothing, exactly when no
    /// backend is alive.
    fn select_backend(&mut self) -> (r: Result<Arc<BackendServer>, AppError>)
        ensures
            match r {
                Ok(b) => exists|i: int|
                    #[trigger] is_least_loaded(old(self).pool@.entries, i) && b@
                        == old(self).pool@.entries[i].backend && final(self).pool@ == (PoolView {
                        entries: with_connection_added(old(self).pool@.entries, i),
                        ..old(self).pool@
                    }),
                Err(_) => none_alive(old(self).pool@.entries) && final(self).pool@ == old(self).pool@,
            },
    {
        match self.pool.select_least_connections() {
            Ok(i) => {
                let b = self.pool.backend_at(i);
                self.pool.increment_connections(i);
                Ok(b)
            },
            Err(e) => Err(e),
        }
    }
}

} // verus!
