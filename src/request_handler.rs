use std::sync::Arc;
use vstd::prelude::*;
use crate::backend::BackendServer;
use crate::config::{strategy_named, weight_of, BackendConfig, Config, StrategyKind};
use crate::error::AppError;
use crate::health::HealthChecker;
use crate::pool::{
    distinct_identities, is_least_loaded, none_alive, with_connection_added, with_connection_released, with_liveness,
    BackendPool, EntryView, PoolView,
};
use crate::backend::BackendView;

verus! {

/// The pool state once strategy `kind` has taken its cursor step.
pub open spec fn after_select(kind: StrategyKind, v: PoolView) -> PoolView {
    match kind {
        StrategyKind::RoundRobin => PoolView { cursor: v.next_cursor(), ..v },
        StrategyKind::WeightedRoundRobin => PoolView { schedule_cursor: v.next_schedule_cursor(), ..v },
        StrategyKind::LeastConnections => v,
    }
}

/// Strategy `kind` picks entry `i` from state `v`.
pub open spec fn selects(kind: StrategyKind, v: PoolView, i: int) -> bool {
    match kind {
        StrategyKind::RoundRobin => v.round_robin_pick() == Some(i),
        StrategyKind::WeightedRoundRobin => v.weighted_pick() == Some(i),
        StrategyKind::LeastConnections => is_least_loaded(v.entries, i),
    }
}

/// Strategy `kind` finds nothing to pick in state `v`.
pub open spec fn selects_none(kind: StrategyKind, v: PoolView) -> bool {
    match kind {
        StrategyKind::RoundRobin => v.round_robin_pick() is None,
        StrategyKind::WeightedRoundRobin => v.weighted_pick() is None,
        StrategyKind::LeastConnections => none_alive(v.entries),
    }
}

/// The pool entry that a configured backend starts as.
pub open spec fn configured_entry(b: BackendConfig) -> EntryView {
    EntryView {
        backend: BackendView { address: b.address@, port: b.port },
        alive: true,
        weight: weight_of(b),
        active_connections: 0,
    }
}

/// No two configured backends share an address and a port.
pub open spec fn distinct_configured(backends: Seq<BackendConfig>) -> bool {
    forall|i: int, j: int|
        0 <= i < j < backends.len() ==> #[trigger] configured_entry(backends[i]).backend
            != #[trigger] configured_entry(backends[j]).backend
}

/// The dispatcher: picks a backend for each request with a strategy fixed at
/// construction, and keeps the count of requests in flight on each backend.
pub struct RequestHandler {
    strategy: StrategyKind,
    pool: BackendPool,
}

impl RequestHandler {
    pub closed spec fn kind(&self) -> StrategyKind {
        self.strategy
    }

    pub closed spec fn state(&self) -> BackendPool {
        self.pool
    }

    pub open spec fn wf(&self) -> bool {
        self.state().wf()
    }

    /// A dispatcher for `config`: its strategy, and its backends each alive,
    /// with their weights and no connection. Fails with `ConfigError`
    /// exactly when the strategy name is unknown, no backend is listed, or
    /// one backend is listed twice.
    pub fn new(config: &Config) -> (r: Result<RequestHandler, AppError>)
        ensures
            r is Ok <==> {
                &&& strategy_named(config.load_balancer@) is Some
                &&& config.backend_servers@.len() > 0
                &&& distinct_configured(config.backend_servers@)
            },
            r matches Err(e) ==> e is ConfigError,
            r matches Ok(h) ==> {
                &&& h.wf()
                &&& strategy_named(config.load_balancer@) == Some(h.kind())
                &&& h.state()@.len() == config.backend_servers@.len()
                &&& forall|i: int|
                    0 <= i < config.backend_servers@.len() ==> #[trigger] h.state()@.entries[i]
                        == configured_entry(config.backend_servers@[i])
                &&& h.state()@.cursor == 0
                &&& h.state()@.schedule_cursor == 0
            },
    {
        let strategy = match StrategyKind::from_name(config.load_balancer.as_str()) {
            Ok(k) => k,
            Err(e) => return Err(e),
        };
        let mut backends: Vec<(Arc<BackendServer>, u32)> = Vec::new();
        let mut i: usize = 0;
        while i < config.backend_servers.len()
            invariant
                i <= config.backend_servers@.len(),
                backends@.len() == i,
                forall|t: int|
                    0 <= t < i ==> (#[trigger] backends@[t]).0@ == (BackendView {
                        address: config.backend_servers@[t].address@,
                        port: config.backend_servers@[t].port,
                    }) && backends@[t].1 == weight_of(config.backend_servers@[t]),
            decreases config.backend_servers@.len() - i,
        {
            let b = &config.backend_servers[i];
            let weight: u32 = match b.weight {
                Some(w) => w,
                None => 1,
            };
            let server = Arc::new(BackendServer::new(b.address.clone(), b.port));
            backends.push((server, weight));
            i += 1;
        }
        proof {
            let bs = config.backend_servers@;
            if distinct_configured(bs) {
                assert forall|a: int, b: int| 0 <= a < b < backends@.len() implies #[trigger] backends@[a].0@
                    != #[trigger] backends@[b].0@ by {
                    assert(configured_entry(bs[a]).backend != configured_entry(bs[b]).backend);
                }
            }
            if distinct_identities(backends@) {
                assert forall|a: int, b: int| 0 <= a < b < bs.len() implies #[trigger] configured_entry(bs[a]).backend
                    != #[trigger] configured_entry(bs[b]).backend by {
                    assert(backends@[a].0@ != backends@[b].0@);
                }
            }
        }
        match BackendPool::new(backends) {
            Ok(pool) => Ok(RequestHandler { strategy, pool }),
            Err(e) => Err(e),
        }
    }

    /// The strategy chosen at construction.
    pub fn strategy(&self) -> (r: StrategyKind)
        ensures
            r == self.kind(),
    {
        self.strategy
    }

    /// The pool, for reading.
    pub fn pool(&self) -> (r: &BackendPool)
        ensures
            *r == self.state(),
    {
        &self.pool
    }

    /// Starts a request: the strategy picks a backend and one more
    /// connection is counted on it. Fails with `NoBackendAvailable`, counting
    /// nothing, exactly when no backend is alive.
    pub fn begin_request(&mut self) -> (r: Result<usize, AppError>)
        requires
            old(self).wf(),
        ensures
            final(self).wf(),
            final(self).kind() == old(self).kind(),
            match r {
                Ok(i) => {
                    &&& selects(old(self).kind(), old(self).state()@, i as int)
                    &&& final(self).state()@ == (PoolView {
                        entries: with_connection_added(old(self).state()@.entries, i as int),
                        ..after_select(old(self).kind(), old(self).state()@)
                    })
                },
                Err(e) => {
                    &&& e is NoBackendAvailable
                    &&& selects_none(old(self).kind(), old(self).state()@)
                    &&& final(self).state()@ == after_select(old(self).kind(), old(self).state()@)
                },
            },
            r is Err <==> none_alive(old(self).state()@.entries),
    {
        let picked = match self.strategy {
            StrategyKind::RoundRobin => self.pool.select_round_robin(),
            StrategyKind::WeightedRoundRobin => self.pool.select_weighted(),
            StrategyKind::LeastConnections => self.pool.select_least_connections(),
        };
        match picked {
            Ok(i) => {
                self.pool.increment_connections(i);
                Ok(i)
            },
            Err(e) => Err(e),
        }
    }

    /// Ends a request on backend `id`, whatever its outcome: one connection
    /// fewer is counted on it.
    pub fn end_request(&mut self, id: usize)
        requires
            old(self).wf(),
        ensures
            final(self).wf(),
            final(self).kind() == old(self).kind(),
            final(self).state()@ == (PoolView {
                entries: with_connection_released(old(self).state()@.entries, id as int),
                ..old(self).state()@
            }),
    {
        self.pool.decrement_connections(id);
    }

    /// Records the outcome of a health probe of backend `id`.
    pub fn record_probe(&mut self, id: usize, probe_succeeded: bool)
        requires
            old(self).wf(),
        ensures
            final(self).wf(),
            final(self).kind() == old(self).kind(),
            final(self).state()@ == (PoolView {
                entries: with_liveness(old(self).state()@.entries, id as int, probe_succeeded),
                ..old(self).state()@
            }),
    {
        HealthChecker::record(&mut self.pool, id, probe_succeeded);
    }

    /// The backend of entry `id`.
    pub fn backend(&self, id: usize) -> (r: Arc<BackendServer>)
        requires
            id < self.state()@.len(),
        ensures
            r@ == self.state()@.entries[id as int].backend,
    {
        self.pool.backend_at(id)
    }
}

} // verus!
