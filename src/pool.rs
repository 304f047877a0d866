use std::sync::Arc;
use vstd::prelude::*;
use vstd::arithmetic::div_mod::{
    lemma_mod_add_multiples_vanish, lemma_mod_bound, lemma_mod_sub_multiples_vanish, lemma_small_mod,
};
use crate::backend::{BackendServer, BackendView};
use crate::error::AppError;

verus! {

/// What one pool entry is, as the contracts see it.
pub struct EntryView {
    pub backend: BackendView,
    pub alive: bool,
    pub weight: u32,
    pub active_connections: usize,
}

/// One configured backend with its scheduling state.
pub struct PoolEntry {
    pub backend: Arc<BackendServer>,
    pub alive: bool,
    pub weight: u32,
    pub active_connections: usize,
}

impl View for PoolEntry {
    type V = EntryView;

    open spec fn view(&self) -> EntryView {
        EntryView {
            backend: self.backend@,
            alive: self.alive,
            weight: self.weight,
            active_connections: self.active_connections,
        }
    }
}

impl Clone for PoolEntry {
    fn clone(&self) -> (r: Self)
        ensures
            r@ == self@,
    {
        PoolEntry {
            backend: Arc::clone(&self.backend),
            alive: self.alive,
            weight: self.weight,
            active_connections: self.active_connections,
        }
    }
}

/// The views of a sequence of entries.
pub open spec fn entry_views(entries: Seq<PoolEntry>) -> Seq<EntryView> {
    entries.map_values(|e: PoolEntry| e@)
}

/// The weighted schedule of a pool: entry `i` repeated `weight_i` times, in
/// construction order. Its length is the sum of the weights.
pub open spec fn expand(entries: Seq<EntryView>) -> Seq<int>
    decreases entries.len(),
{
    if entries.len() == 0 {
        Seq::empty()
    } else {
        expand(entries.drop_last()) + Seq::new(
            entries.last().weight as nat,
            |j: int| entries.len() - 1,
        )
    }
}

/// An entry may be picked: it is alive and, where `weighted`, has a weight
/// above zero.
pub open spec fn eligible(e: EntryView, weighted: bool) -> bool {
    e.alive && (weighted ==> e.weight > 0)
}

/// The first index of `order` whose entry is eligible, if there is one.
pub open spec fn first_eligible(order: Seq<int>, entries: Seq<EntryView>, weighted: bool) -> Option<int>
    decreases order.len(),
{
    if order.len() == 0 {
        None
    } else if eligible(entries[order[0]], weighted) {
        Some(order[0])
    } else {
        first_eligible(order.drop_first(), entries, weighted)
    }
}

/// The first index of `order` whose entry is alive, if there is one.
pub open spec fn first_alive(order: Seq<int>, entries: Seq<EntryView>) -> Option<int> {
    first_eligible(order, entries, false)
}

/// The order in which round robin probes the `n` entries, from cursor `start`.
pub open spec fn ring_order(n: nat, start: int) -> Seq<int> {
    Seq::new(n, |j: int| (start + j) % (n as int))
}

/// The slots of the schedule, cyclically, from position `start`.
pub open spec fn schedule_order(schedule: Seq<int>, start: int) -> Seq<int> {
    Seq::new(schedule.len(), |j: int| schedule[(start + j) % (schedule.len() as int)])
}

/// `entries` with entry `id`'s liveness set to `alive`; unchanged where `id` is absent.
pub open spec fn with_liveness(entries: Seq<EntryView>, id: int, alive: bool) -> Seq<EntryView> {
    if 0 <= id < entries.len() {
        entries.update(id, EntryView { alive, ..entries[id] })
    } else {
        entries
    }
}

/// `entries` with one more connection on entry `id` (saturating); unchanged where `id` is absent.
pub open spec fn with_connection_added(entries: Seq<EntryView>, id: int) -> Seq<EntryView> {
    if 0 <= id < entries.len() && entries[id].active_connections < usize::MAX {
        entries.update(
            id,
            EntryView { active_connections: (entries[id].active_connections + 1) as usize, ..entries[id] },
        )
    } else {
        entries
    }
}

/// `entries` with one connection fewer on entry `id` (not below zero); unchanged where `id` is absent.
pub open spec fn with_connection_released(entries: Seq<EntryView>, id: int) -> Seq<EntryView> {
    if 0 <= id < entries.len() && entries[id].active_connections > 0 {
        entries.update(
            id,
            EntryView { active_connections: (entries[id].active_connections - 1) as usize, ..entries[id] },
        )
    } else {
        entries
    }
}

/// Entry `i` is the least loaded alive entry, the first such in construction order.
pub open spec fn is_least_loaded(entries: Seq<EntryView>, i: int) -> bool {
    &&& 0 <= i < entries.len()
    &&& entries[i].alive
    &&& forall|m: int|
        0 <= m < entries.len() && #[trigger] entries[m].alive ==> entries[i].active_connections
            <= entries[m].active_connections
    &&& forall|m: int|
        0 <= m < i && #[trigger] entries[m].alive ==> entries[m].active_connections
            > entries[i].active_connections
}

/// No two entries share a backend identity.
pub open spec fn distinct_backends(entries: Seq<EntryView>) -> bool {
    forall|i: int, j: int|
        0 <= i < j < entries.len() ==> #[trigger] entries[i].backend != #[trigger] entries[j].backend
}

/// No entry is alive.
pub open spec fn none_alive(entries: Seq<EntryView>) -> bool {
    forall|m: int| 0 <= m < entries.len() ==> !(#[trigger] entries[m].alive)
}

/// No two of the backends share an identity.
pub open spec fn distinct_identities<W>(backends: Seq<(Arc<BackendServer>, W)>) -> bool {
    forall|i: int, j: int|
        0 <= i < j < backends.len() ==> #[trigger] backends[i].0@ != #[trigger] backends[j].0@
}

/// No two of the servers share an identity.
pub open spec fn distinct_servers(servers: Seq<Arc<BackendServer>>) -> bool {
    forall|i: int, j: int| 0 <= i < j < servers.len() ==> #[trigger] servers[i]@ != #[trigger] servers[j]@
}

/// The pool as the contracts see it.
pub struct PoolView {
    pub entries: Seq<EntryView>,
    /// Round robin's rotation cursor, always below the number of entries.
    pub cursor: nat,
    /// Weighted round robin's position in the schedule.
    pub schedule_cursor: nat,
}

impl PoolView {
    pub open spec fn len(self) -> nat {
        self.entries.len()
    }

    pub open spec fn schedule(self) -> Seq<int> {
        expand(self.entries)
    }

    pub open spec fn valid(self) -> bool {
        &&& self.entries.len() > 0
        &&& distinct_backends(self.entries)
        &&& self.cursor < self.entries.len()
        &&& if self.schedule().len() == 0 {
            self.schedule_cursor == 0
        } else {
            self.schedule_cursor < self.schedule().len()
        }
    }

    /// What round robin picks from this state.
    pub open spec fn round_robin_pick(self) -> Option<int> {
        first_alive(ring_order(self.len(), self.cursor as int), self.entries)
    }

    /// The entry of the slot under the schedule position (entry zero where
    /// the schedule is empty).
    pub open spec fn weighted_start(self) -> int {
        if self.schedule().len() > 0 {
            self.schedule()[self.schedule_cursor as int]
        } else {
            0
        }
    }

    /// What weighted round robin picks from this state: from the entry of the
    /// current slot, the first alive entry of weight above zero in ring
    /// order, which is the entry of the first slot from there whose entry is
    /// alive; where there is none, the first alive entry of the pool.
    pub open spec fn weighted_pick(self) -> Option<int> {
        match first_eligible(ring_order(self.len(), self.weighted_start()), self.entries, true) {
            Some(i) => Some(i),
            None => first_alive(ring_order(self.len(), 0), self.entries),
        }
    }

    /// The cursor after one round robin call.
    pub open spec fn next_cursor(self) -> nat {
        (self.cursor + 1) % self.len()
    }

    /// The schedule position after one weighted round robin call.
    pub open spec fn next_schedule_cursor(self) -> nat {
        if self.schedule().len() == 0 {
            0
        } else {
            (self.schedule_cursor + 1) % self.schedule().len()
        }
    }
}

/// The backends with their liveness, weights, connection counts and cursors.
pub struct BackendPool {
    entries: Vec<PoolEntry>,
    cursor: usize,
    schedule: Vec<usize>,
    schedule_cursor: usize,
}

impl View for BackendPool {
    type V = PoolView;

    closed spec fn view(&self) -> PoolView {
        PoolView {
            entries: entry_views(self.entries@),
            cursor: self.cursor as nat,
            schedule_cursor: self.schedule_cursor as nat,
        }
    }
}


/// Every slot of the schedule names an entry of the pool, of weight above zero.
pub proof fn lemma_expand_bounds(entries: Seq<EntryView>)
    ensures
        forall|p: int|
            0 <= p < expand(entries).len() ==> 0 <= #[trigger] expand(entries)[p] < entries.len()
                && entries[expand(entries)[p]].weight > 0,
    decreases entries.len(),
{
    if entries.len() > 0 {
        let rest = entries.drop_last();
        lemma_expand_bounds(rest);
        let head = expand(rest);
        let tail = Seq::new(entries.last().weight as nat, |j: int| entries.len() - 1);
        assert forall|p: int| 0 <= p < expand(entries).len() implies 0 <= #[trigger] expand(
            entries,
        )[p] < entries.len() && entries[expand(entries)[p]].weight > 0 by {
            if p < head.len() {
                assert(expand(entries)[p] == head[p]);
                assert(entries[head[p]] == rest[head[p]]);
            } else {
                assert(expand(entries)[p] == tail[p - head.len()]);
            }
        }
    }
}

/// The schedule depends on the weights alone.
pub proof fn lemma_expand_weights(a: Seq<EntryView>, b: Seq<EntryView>)
    requires
        a.len() == b.len(),
        forall|i: int| 0 <= i < a.len() ==> (#[trigger] a[i]).weight == b[i].weight,
    ensures
        expand(a) == expand(b),
    decreases a.len(),
{
    if a.len() > 0 {
        lemma_expand_weights(a.drop_last(), b.drop_last());
        assert(a.last().weight == b[b.len() - 1].weight);
    }
}

/// What `first_eligible` finds is eligible and stands in the order; when it
/// finds nothing, no entry of the order is eligible.
pub proof fn lemma_first_eligible(order: Seq<int>, entries: Seq<EntryView>, weighted: bool)
    requires
        forall|q: int| 0 <= q < order.len() ==> 0 <= #[trigger] order[q] < entries.len(),
    ensures
        first_eligible(order, entries, weighted) matches Some(i) ==> eligible(entries[i], weighted)
            && order.contains(i),
        first_eligible(order, entries, weighted) is None ==> forall|q: int|
            0 <= q < order.len() ==> !eligible(#[trigger] entries[order[q]], weighted),
    decreases order.len(),
{
    if order.len() > 0 {
        let rest = order.drop_first();
        assert forall|q: int| 0 <= q < rest.len() implies 0 <= #[trigger] rest[q] < entries.len() by {
            assert(rest[q] == order[q + 1]);
        }
        lemma_first_eligible(rest, entries, weighted);
        if !eligible(entries[order[0]], weighted) {
            if let Some(i) = first_eligible(rest, entries, weighted) {
                let q = choose|q: int| 0 <= q < rest.len() && rest[q] == i;
                assert(order[q + 1] == i);
            } else {
                assert forall|q: int| 0 <= q < order.len() implies !eligible(
                    #[trigger] entries[order[q]],
                    weighted,
                ) by {
                    if q > 0 {
                        assert(order[q] == rest[q - 1]);
                    }
                }
            }
        }
    }
}

/// The position at which the ring order from `start` reaches entry `i`.
pub proof fn lemma_ring_position(n: nat, start: int, i: int) -> (q: int)
    requires
        0 <= start < n,
        0 <= i < n,
    ensures
        0 <= q < n,
        ring_order(n, start)[q] == i,
{
    if i >= start {
        lemma_small_mod(i as nat, n);
        i - start
    } else {
        lemma_mod_add_multiples_vanish(i, n as int);
        lemma_small_mod(i as nat, n);
        i - start + n
    }
}

/// In ring order from any start, the first eligible entry is found exactly
/// when some entry is eligible, and it is eligible.
pub proof fn lemma_ring_pick(entries: Seq<EntryView>, start: int, weighted: bool)
    requires
        0 <= start < entries.len(),
    ensures
        first_eligible(ring_order(entries.len(), start), entries, weighted) matches Some(i) ==> 0 <= i
            < entries.len() && eligible(entries[i], weighted),
        first_eligible(ring_order(entries.len(), start), entries, weighted) is None <==> forall|m: int|
            0 <= m < entries.len() ==> !eligible(#[trigger] entries[m], weighted),
{
    let n = entries.len();
    let order = ring_order(n, start);
    assert forall|q: int| 0 <= q < order.len() implies 0 <= #[trigger] order[q] < n by {
        lemma_mod_bound(start + q, n as int);
    }
    lemma_first_eligible(order, entries, weighted);
    if first_eligible(order, entries, weighted) is None {
        assert forall|m: int| 0 <= m < n implies !eligible(#[trigger] entries[m], weighted) by {
            let q = lemma_ring_position(n, start, m);
            assert(!eligible(entries[order[q]], weighted));
        }
    } else {
        let i = first_eligible(order, entries, weighted).unwrap();
        let q = choose|q: int| 0 <= q < order.len() && order[q] == i;
    }
}

/// Both round robin variants find an entry exactly when one is alive, and
/// the entry they find is alive.
pub proof fn lemma_picks_alive(v: PoolView)
    requires
        v.valid(),
    ensures
        v.round_robin_pick() matches Some(i) ==> 0 <= i < v.len() && v.entries[i].alive,
        v.weighted_pick() matches Some(i) ==> 0 <= i < v.len() && v.entries[i].alive,
        v.round_robin_pick() is None <==> none_alive(v.entries),
        v.weighted_pick() is None <==> none_alive(v.entries),
{
    lemma_ring_pick(v.entries, v.cursor as int, false);
    lemma_ring_pick(v.entries, 0, false);
    lemma_expand_bounds(v.entries);
    lemma_ring_pick(v.entries, v.weighted_start(), true);
    assert(forall|m: int| 0 <= m < v.len() ==> (eligible(#[trigger] v.entries[m], false) == v.entries[m].alive));
}

/// `(start + j) % n` without overflow.
fn ring_index(start: usize, j: usize, n: usize) -> (r: usize)
    requires
        start < n,
        j < n,
    ensures
        r == (start + j) % (n as int),
{
    if j < n - start {
        proof {
            lemma_small_mod((start + j) as nat, n as nat);
        }
        start + j
    } else {
        proof {
            lemma_mod_sub_multiples_vanish(start + j, n as int);
            lemma_small_mod((start + j - n) as nat, n as nat);
        }
        j - (n - start)
    }
}

impl BackendPool {
    /// The schedule held by the pool is the one its weights give.
    pub closed spec fn schedule_matches(&self) -> bool {
        self.schedule@.map_values(|x: usize| x as int) == expand(self@.entries)
    }

    pub open spec fn wf(&self) -> bool {
        &&& self@.valid()
        &&& self.schedule_matches()
    }

    /// A pool of the given entries, with both cursors at zero. Fails with
    /// `ConfigError` exactly when `entries` is empty or two of them share a
    /// backend identity.
    pub fn from_entries(entries: Vec<PoolEntry>) -> (r: Result<BackendPool, AppError>)
        ensures
            r is Err <==> entries@.len() == 0 || !distinct_backends(entry_views(entries@)),
            r matches Err(e) ==> e is ConfigError,
            r matches Ok(p) ==> {
                &&& p.wf()
                &&& p@.entries == entry_views(entries@)
                &&& p@.cursor == 0
                &&& p@.schedule_cursor == 0
            },
    {
        if entries.len() == 0 {
            return Err(AppError::ConfigError("no backend servers specified".to_owned()));
        }
        let ghost ev = entry_views(entries@);
        let mut i: usize = 0;
        while i < entries.len()
            invariant
                i <= entries.len(),
                ev == entry_views(entries@),
                forall|a: int, b: int| 0 <= a < b < i ==> #[trigger] ev[a].backend != #[trigger] ev[b].backend,
            decreases entries.len() - i,
        {
            let mut j: usize = 0;
            while j < i
                invariant
                    j <= i < entries.len(),
                    ev == entry_views(entries@),
                    forall|a: int, b: int|
                        0 <= a < b < i ==> #[trigger] ev[a].backend != #[trigger] ev[b].backend,
                    forall|a: int| 0 <= a < j ==> #[trigger] ev[a].backend != ev[i as int].backend,
                decreases i - j,
            {
                proof {
                    assert(entries@[j as int]@ == ev[j as int]);
                    assert(entries@[i as int]@ == ev[i as int]);
                }
                if entries[j].backend.same_identity(&entries[i].backend) {
                    assert(ev[j as int].backend == ev[i as int].backend);
                    assert(!distinct_backends(ev));
                    return Err(AppError::ConfigError("duplicate backend server".to_owned()));
                }
                j += 1;
            }
            i += 1;
        }
        let mut schedule: Vec<usize> = Vec::new();
        i = 0;
        while i < entries.len()
            invariant
                i <= entries.len(),
                ev == entry_views(entries@),
                distinct_backends(ev),
                schedule@.map_values(|x: usize| x as int) == expand(ev.take(i as int)),
            decreases entries.len() - i,
        {
            let w = entries[i].weight;
            let mut j: u32 = 0;
            while j < w
                invariant
                    i < entries.len(),
                    ev == entry_views(entries@),
                    distinct_backends(ev),
                    j <= w,
                    w == ev[i as int].weight,
                    schedule@.map_values(|x: usize| x as int) == expand(ev.take(i as int))
                        + Seq::new(j as nat, |t: int| i as int),
                decreases w - j,
            {
                let ghost before = schedule@;
                schedule.push(i);
                proof {
                    assert(schedule@.map_values(|x: usize| x as int) =~= before.map_values(
                        |x: usize| x as int,
                    ).push(i as int));
                    assert(expand(ev.take(i as int)) + Seq::new((j + 1) as nat, |t: int| i as int)
                        =~= (expand(ev.take(i as int)) + Seq::new(j as nat, |t: int| i as int)).push(
                        i as int,
                    ));
                }
                j += 1;
            }
            proof {
                let next = ev.take(i + 1);
                assert(next.drop_last() =~= ev.take(i as int));
                assert(next.last() == ev[i as int]);
            }
            i += 1;
        }
        proof {
            assert(ev.take(entries.len() as int) =~= ev);
        }
        let pool = BackendPool { entries, cursor: 0, schedule, schedule_cursor: 0 };
        Ok(pool)
    }

    /// A pool of the given backends and weights, each alive and with no
    /// connection. Fails with `ConfigError` exactly when `backends` is empty
    /// or names one backend twice.
    pub fn new(backends: Vec<(Arc<BackendServer>, u32)>) -> (r: Result<BackendPool, AppError>)
        ensures
            r is Err <==> backends@.len() == 0 || !distinct_identities(backends@),
            r matches Err(e) ==> e is ConfigError,
            r matches Ok(p) ==> {
                &&& p.wf()
                &&& p@.len() == backends@.len()
                &&& forall|i: int|
                    0 <= i < backends@.len() ==> #[trigger] p@.entries[i] == (EntryView {
                        backend: backends@[i].0@,
                        alive: true,
                        weight: backends@[i].1,
                        active_connections: 0,
                    })
                &&& p@.cursor == 0
                &&& p@.schedule_cursor == 0
            },
    {
        let mut entries: Vec<PoolEntry> = Vec::new();
        let mut i: usize = 0;
        while i < backends.len()
            invariant
                i <= backends.len(),
                entries@.len() == i,
                forall|t: int|
                    0 <= t < i ==> #[trigger] entries@[t]@ == (EntryView {
                        backend: backends@[t].0@,
                        alive: true,
                        weight: backends@[t].1,
                        active_connections: 0,
                    }),
            decreases backends.len() - i,
        {
            let backend = Arc::clone(&backends[i].0);
            entries.push(PoolEntry { backend, alive: true, weight: backends[i].1, active_connections: 0 });
            i += 1;
        }
        proof {
            let ev = entry_views(entries@);
            assert forall|a: int| 0 <= a < ev.len() implies #[trigger] ev[a].backend == backends@[a].0@ by {
                assert(entries@[a]@ == ev[a]);
            }
            if distinct_identities(backends@) {
                assert forall|a: int, b: int| 0 <= a < b < ev.len() implies #[trigger] ev[a].backend
                    != #[trigger] ev[b].backend by {
                    assert(backends@[a].0@ != backends@[b].0@);
                }
            }
            if distinct_backends(ev) {
                assert forall|a: int, b: int| 0 <= a < b < backends@.len() implies #[trigger] backends@[a].0@
                    != #[trigger] backends@[b].0@ by {
                    assert(ev[a].backend != ev[b].backend);
                }
            }
        }
        BackendPool::from_entries(entries)
    }

    /// The number of entries.
    pub fn len(&self) -> (r: usize)
        ensures
            r == self@.len(),
    {
        self.entries.len()
    }

    /// The backend of entry `id`.
    pub fn backend_at(&self, id: usize) -> (r: Arc<BackendServer>)
        requires
            id < self@.len(),
        ensures
            r@ == self@.entries[id as int].backend,
    {
        Arc::clone(&self.entries[id].backend)
    }

    /// A point-in-time copy of every entry, in construction order.
    pub fn snapshot(&self) -> (r: Vec<PoolEntry>)
        ensures
            entry_views(r@) == self@.entries,
    {
        let mut out: Vec<PoolEntry> = Vec::new();
        let mut i: usize = 0;
        while i < self.entries.len()
            invariant
                i <= self.entries.len(),
                entry_views(out@) == entry_views(self.entries@).take(i as int),
            decreases self.entries.len() - i,
        {
            let e = self.entries[i].clone();
            let ghost before = out@;
            out.push(e);
            proof {
                assert(entry_views(out@) =~= entry_views(before).push(e@));
                assert(entry_views(self.entries@).take(i + 1) =~= entry_views(self.entries@).take(
                    i as int,
                ).push(e@));
            }
            i += 1;
        }
        proof {
            assert(entry_views(self.entries@).take(i as int) =~= entry_views(self.entries@));
        }
        out
    }

    /// Replaces entry `id` by `e`, which keeps its weight.
    fn replace_entry(&mut self, id: usize, e: PoolEntry)
        requires
            old(self).wf(),
            id < old(self)@.len(),
            e.weight == old(self)@.entries[id as int].weight,
            e.backend@ == old(self)@.entries[id as int].backend,
        ensures
            final(self).wf(),
            final(self)@ == (PoolView { entries: old(self)@.entries.update(id as int, e@), ..old(self)@ }),
    {
        let ghost old_entries = self@.entries;
        self.entries.set(id, e);
        proof {
            assert(self@.entries =~= old_entries.update(id as int, e@));
            lemma_expand_weights(self@.entries, old_entries);
        }
    }

    /// Sets the liveness of entry `id`; does nothing where there is no such entry.
    pub fn mark_alive(&mut self, id: usize, alive: bool)
        requires
            old(self).wf(),
        ensures
            final(self).wf(),
            final(self)@ == (PoolView {
                entries: with_liveness(old(self)@.entries, id as int, alive),
                ..old(self)@
            }),
    {
        if id < self.entries.len() {
            let mut e = self.entries[id].clone();
            e.alive = alive;
            self.replace_entry(id, e);
        }
    }

    /// One more active connection on entry `id`, saturating at `usize::MAX`;
    /// does nothing where there is no such entry.
    pub fn increment_connections(&mut self, id: usize)
        requires
            old(self).wf(),
        ensures
            final(self).wf(),
            final(self)@ == (PoolView {
                entries: with_connection_added(old(self)@.entries, id as int),
                ..old(self)@
            }),
    {
        if id < self.entries.len() && self.entries[id].active_connections < usize::MAX {
            let mut e = self.entries[id].clone();
            e.active_connections = e.active_connections + 1;
            self.replace_entry(id, e);
        }
    }

    /// One active connection fewer on entry `id`, never below zero; does
    /// nothing where there is no such entry.
    pub fn decrement_connections(&mut self, id: usize)
        requires
            old(self).wf(),
        ensures
            final(self).wf(),
            final(self)@ == (PoolView {
                entries: with_connection_released(old(self)@.entries, id as int),
                ..old(self)@
            }),
    {
        if id < self.entries.len() && self.entries[id].active_connections > 0 {
            let mut e = self.entries[id].clone();
            e.active_connections = e.active_connections - 1;
            self.replace_entry(id, e);
        }
    }

    /// Returns the rotation cursor and advances it, modulo the pool size.
    pub fn next_cursor(&mut self) -> (r: usize)
        requires
            old(self).wf(),
        ensures
            final(self).wf(),
            r == old(self)@.cursor,
            final(self)@ == (PoolView { cursor: old(self)@.next_cursor(), ..old(self)@ }),
    {
        let r = self.cursor;
        assert(self.entries@.len() == self@.len());
        if self.cursor < self.entries.len() - 1 {
            proof {
                lemma_small_mod((r + 1) as nat, self@.len());
            }
            self.cursor = self.cursor + 1;
        } else {
            proof {
                assert((r + 1) % (self@.len() as int) == 0) by {
                    lemma_mod_sub_multiples_vanish(r + 1, self@.len() as int);
                    lemma_small_mod(0, self@.len());
                }
            }
            self.cursor = 0;
        }
        r
    }

    /// Returns the schedule position and advances it, modulo the schedule length.
    fn next_schedule_cursor(&mut self) -> (r: usize)
        requires
            old(self).wf(),
        ensures
            final(self).wf(),
            r == old(self)@.schedule_cursor,
            final(self)@ == (PoolView {
                schedule_cursor: old(self)@.next_schedule_cursor(),
                ..old(self)@
            }),
    {
        let r = self.schedule_cursor;
        let n = self.schedule.len();
        assert(self.schedule@.len() == self@.schedule().len());
        if n == 0 {
            r
        } else {
            if r < n - 1 {
                proof {
                    lemma_small_mod((r + 1) as nat, n as nat);
                }
                self.schedule_cursor = r + 1;
            } else {
                proof {
                    assert((r + 1) % (n as int) == 0) by {
                        lemma_mod_sub_multiples_vanish(r + 1, n as int);
                        lemma_small_mod(0, n as nat);
                    }
                }
                self.schedule_cursor = 0;
            }
            r
        }
    }

    /// Probes the entries in ring order from `start` for the first eligible one.
    fn probe_ring(&self, start: usize, weighted: bool) -> (r: Option<usize>)
        requires
            self.wf(),
            start < self@.len(),
        ensures
            match r {
                Some(i) => first_eligible(ring_order(self@.len(), start as int), self@.entries, weighted)
                    == Some(i as int),
                None => first_eligible(ring_order(self@.len(), start as int), self@.entries, weighted)
                    is None,
            },
    {
        let n = self.entries.len();
        let ghost order = ring_order(n as nat, start as int);
        assert(order.subrange(0, n as int) =~= order);
        let mut j: usize = 0;
        while j < n
            invariant
                n == self@.len(),
                start < n,
                j <= n,
                order == ring_order(n as nat, start as int),
                first_eligible(order, self@.entries, weighted) == first_eligible(
                    order.subrange(j as int, n as int),
                    self@.entries,
                    weighted,
                ),
            decreases n - j,
        {
            let idx = ring_index(start, j, n);
            proof {
                let rest = order.subrange(j as int, n as int);
                assert(rest[0] == idx);
                assert(rest.drop_first() =~= order.subrange(j + 1, n as int));
                assert(self.entries@[idx as int]@ == self@.entries[idx as int]);
            }
            if self.entries[idx].alive && (!weighted || self.entries[idx].weight > 0) {
                return Some(idx);
            }
            j += 1;
        }
        None
    }

    /// Round robin: takes the next cursor value and probes the entries from
    /// there, in ring order, for the first alive one. Fails with
    /// `NoBackendAvailable` exactly when no entry is alive.
    pub fn select_round_robin(&mut self) -> (r: Result<usize, AppError>)
        requires
            old(self).wf(),
        ensures
            final(self).wf(),
            final(self)@ == (PoolView { cursor: old(self)@.next_cursor(), ..old(self)@ }),
            match r {
                Ok(i) => old(self)@.round_robin_pick() == Some(i as int),
                Err(e) => old(self)@.round_robin_pick() is None && e is NoBackendAvailable,
            },
            r is Err <==> none_alive(old(self)@.entries),
    {
        proof {
            lemma_picks_alive(self@);
        }
        let start = self.next_cursor();
        match self.probe_ring(start, false) {
            Some(i) => Ok(i),
            None => Err(AppError::NoBackendAvailable),
        }
    }

    /// Weighted round robin: takes the next schedule position and, from the
    /// entry of that slot, probes the entries in ring order for the first
    /// alive one of weight above zero; where there is none, takes the first
    /// alive entry. Fails with `NoBackendAvailable` exactly when no entry is
    /// alive. Each probe takes at most one pass over the pool.
    pub fn select_weighted(&mut self) -> (r: Result<usize, AppError>)
        requires
            old(self).wf(),
        ensures
            final(self).wf(),
            final(self)@ == (PoolView {
                schedule_cursor: old(self)@.next_schedule_cursor(),
                ..old(self)@
            }),
            match r {
                Ok(i) => old(self)@.weighted_pick() == Some(i as int),
                Err(e) => old(self)@.weighted_pick() is None && e is NoBackendAvailable,
            },
            r is Err <==> none_alive(old(self)@.entries),
    {
        proof {
            lemma_picks_alive(self@);
            lemma_expand_bounds(self@.entries);
        }
        let pos = self.next_schedule_cursor();
        let start = if self.schedule.len() > 0 {
            proof {
                assert(self.schedule@.map_values(|x: usize| x as int)[pos as int] == self@.schedule()[pos as int]);
            }
            self.schedule[pos]
        } else {
            0
        };
        match self.probe_ring(start, true) {
            Some(i) => Ok(i),
            None => match self.probe_ring(0, false) {
                Some(i) => Ok(i),
                None => Err(AppError::NoBackendAvailable),
            },
        }
    }

    /// Least connections: the alive entry with the fewest active connections,
    /// the first one in construction order on a tie. Fails with
    /// `NoBackendAvailable` exactly when no entry is alive.
    pub fn select_least_connections(&self) -> (r: Result<usize, AppError>)
        requires
            self.wf(),
        ensures
            match r {
                Ok(i) => is_least_loaded(self@.entries, i as int),
                Err(e) => none_alive(self@.entries) && e is NoBackendAvailable,
            },
    {
        let ghost ev = self@.entries;
        let mut best: Option<usize> = None;
        let mut i: usize = 0;
        while i < self.entries.len()
            invariant
                ev == self@.entries,
                i <= ev.len(),
                match best {
                    Some(b) => {
                        &&& b < i
                        &&& ev[b as int].alive
                        &&& forall|m: int|
                            0 <= m < i && #[trigger] ev[m].alive ==> ev[b as int].active_connections
                                <= ev[m].active_connections
                        &&& forall|m: int|
                            0 <= m < b && #[trigger] ev[m].alive ==> ev[m].active_connections
                                > ev[b as int].active_connections
                    },
                    None => forall|m: int| 0 <= m < i ==> !(#[trigger] ev[m].alive),
                },
            decreases ev.len() - i,
        {
            assert(self.entries@[i as int]@ == ev[i as int]);
            if self.entries[i].alive {
                match best {
                    None => {
                        best = Some(i);
                    },
                    Some(b) => {
                        assert(self.entries@[b as int]@ == ev[b as int]);
                        if self.entries[i].active_connections < self.entries[b].active_connections {
                            best = Some(i);
                        }
                    },
                }
            }
            i += 1;
        }
        match best {
            Some(b) => Ok(b),
            None => Err(AppError::NoBackendAvailable),
        }
    }
}

} // verus!
