use vstd::prelude::*;
use vstd::arithmetic::div_mod::{
    lemma_add_mod_noop, lemma_basic_div, lemma_div_is_ordered, lemma_fundamental_div_mod,
    lemma_fundamental_div_mod_converse, lemma_mod_add_multiples_vanish, lemma_mod_bound,
    lemma_mod_multiples_vanish, lemma_mod_sub_multiples_vanish, lemma_small_mod,
};
use crate::config::StrategyKind;
use crate::pool::{
    expand, lemma_expand_bounds, lemma_picks_alive, none_alive, ring_order, schedule_order,
    with_connection_added, with_connection_released, EntryView, PoolView,
};
use crate::request_handler::{after_select, selects, selects_none};

verus! {

/// How many times `v` occurs in `s`.
pub open spec fn occurrences(s: Seq<int>, v: int) -> nat
    decreases s.len(),
{
    if s.len() == 0 {
        0
    } else {
        occurrences(s.drop_last(), v) + if s.last() == v {
            1nat
        } else {
            0nat
        }
    }
}

/// Every entry is alive.
pub open spec fn all_alive(entries: Seq<EntryView>) -> bool {
    forall|m: int| 0 <= m < entries.len() ==> (#[trigger] entries[m]).alive
}

/// The entries that `calls` consecutive round robin calls pick from cursor
/// `start` on `n` entries that are all alive.
pub open spec fn round_robin_run(n: nat, start: int, calls: nat) -> Seq<int> {
    Seq::new(calls, |t: int| (start + t) % (n as int))
}

proof fn lemma_occurrences_concat(a: Seq<int>, b: Seq<int>, v: int)
    ensures
        occurrences(a + b, v) == occurrences(a, v) + occurrences(b, v),
    decreases b.len(),
{
    if b.len() > 0 {
        lemma_occurrences_concat(a, b.drop_last(), v);
        assert((a + b).drop_last() =~= a + b.drop_last());
    } else {
        assert(a + b =~= a);
    }
}

proof fn lemma_occurrences_constant(w: nat, x: int, v: int)
    ensures
        occurrences(Seq::new(w, |j: int| x), v) == if x == v {
            w
        } else {
            0
        },
    decreases w,
{
    if w > 0 {
        lemma_occurrences_constant((w - 1) as nat, x, v);
        assert(Seq::new(w, |j: int| x).drop_last() =~= Seq::new((w - 1) as nat, |j: int| x));
    }
}

proof fn lemma_occurrences_expand(entries: Seq<EntryView>, i: int)
    ensures
        occurrences(expand(entries), i) == if 0 <= i < entries.len() {
            entries[i].weight as nat
        } else {
            0
        },
    decreases entries.len(),
{
    if entries.len() > 0 {
        let rest = entries.drop_last();
        lemma_occurrences_expand(rest, i);
        lemma_occurrences_concat(
            expand(rest),
            Seq::new(entries.last().weight as nat, |j: int| entries.len() - 1),
            i,
        );
        lemma_occurrences_constant(entries.last().weight as nat, entries.len() - 1, i);
    }
}

/// `(x + 1) / n` steps up exactly where `x + 1` is a multiple of `n`.
proof fn lemma_div_step(x: int, n: int)
    requires
        x >= 0,
        n > 0,
    ensures
        (x + 1) / n == x / n + if (x + 1) % n == 0 {
            1int
        } else {
            0int
        },
{
    lemma_fundamental_div_mod(x, n);
    lemma_mod_bound(x, n);
    let q = x / n;
    let r = x % n;
    if r < n - 1 {
        assert(x + 1 == q * n + (r + 1)) by (nonlinear_arith)
            requires
                x == n * q + r,
        ;
        lemma_fundamental_div_mod_converse(x + 1, n, q, r + 1);
    } else {
        assert(x + 1 == (q + 1) * n + 0) by (nonlinear_arith)
            requires
                x == n * q + r,
                r == n - 1,
        ;
        lemma_fundamental_div_mod_converse(x + 1, n, q + 1, 0);
    }
}

/// `y % n == i` exactly where `y - i` is a multiple of `n`.
proof fn lemma_mod_hit(y: int, i: int, n: int)
    requires
        n > 0,
        0 <= i < n,
    ensures
        (y % n == i) <==> ((y - i) % n == 0),
{
    lemma_fundamental_div_mod(y, n);
    lemma_mod_bound(y, n);
    let q = y / n;
    let r = y % n;
    assert(y - i == n * q + (r - i));
    lemma_mod_multiples_vanish(q, r - i, n);
    if r - i >= 0 {
        lemma_small_mod((r - i) as nat, n as nat);
    } else {
        lemma_mod_add_multiples_vanish(r - i, n);
        lemma_small_mod((r - i + n) as nat, n as nat);
    }
}

/// The number of times round robin picks entry `i` in a run.
proof fn lemma_round_robin_count(n: nat, start: int, i: int, calls: nat)
    requires
        n > 0,
        0 <= i < n,
    ensures
        occurrences(round_robin_run(n, start, calls), i) == (calls + n - 1 - (i - start) % (n as int))
            / (n as int),
    decreases calls,
{
    let d = (i - start) % (n as int);
    lemma_mod_bound(i - start, n as int);
    if calls == 0 {
        lemma_basic_div(n - 1 - d, n as int);
        assert(round_robin_run(n, start, 0) =~= Seq::empty());
    } else {
        let c = (calls - 1) as nat;
        lemma_round_robin_count(n, start, i, c);
        assert(round_robin_run(n, start, calls).drop_last() =~= round_robin_run(n, start, c));
        let x = c + n - 1 - d;
        lemma_div_step(x, n as int);
        // (start + c) % n == i  <==>  (start + c - i) % n == 0  <==>  (x + 1) % n == 0
        lemma_mod_hit(start + c, i, n as int);
        lemma_fundamental_div_mod(i - start, n as int);
        let k = (i - start) / (n as int);
        assert(x + 1 == (n as int) * (k + 1) + (start + c - i)) by (nonlinear_arith)
            requires
                i - start == (n as int) * k + d,
                x == c + n - 1 - d,
        ;
        lemma_mod_multiples_vanish(k + 1, start + c - i, n as int);
        assert(((start + c) % (n as int) == i) == ((x + 1) % (n as int) == 0));
        assert(round_robin_run(n, start, calls).last() == (start + c) % (n as int));
        assert(calls + n - 1 - d == x + 1);
    }
}

/// With every entry alive, round robin picks the entry under the cursor, and
/// the run that starts at the advanced cursor continues the run: so
/// `round_robin_run` is what consecutive calls return.
pub proof fn lemma_round_robin_step(v: PoolView, calls: nat)
    requires
        v.valid(),
        all_alive(v.entries),
    ensures
        v.round_robin_pick() == Some(v.cursor as int),
        round_robin_run(v.len(), v.cursor as int, calls + 1) == seq![v.cursor as int]
            + round_robin_run(v.len(), v.next_cursor() as int, calls),
{
    let n = v.len();
    let c = v.cursor as int;
    lemma_small_mod(v.cursor, n);
    assert(ring_order(n, c)[0] == c);
    assert(v.entries[c].alive);
    let lhs = round_robin_run(n, c, calls + 1);
    let rhs = seq![c] + round_robin_run(n, v.next_cursor() as int, calls);
    assert forall|t: int| 0 <= t < lhs.len() implies lhs[t] == rhs[t] by {
        if t > 0 {
            lemma_add_mod_noop(c + 1, t - 1, n as int);
            lemma_add_mod_noop((c + 1) % (n as int), t - 1, n as int);
            lemma_mod_bound(c + 1, n as int);
            lemma_small_mod(((c + 1) % (n as int)) as nat, n);
        }
    }
    assert(lhs =~= rhs);
}

/// Round-robin fairness: over any number of calls with every backend alive,
/// each backend is picked `⌊calls/n⌋` or `⌈calls/n⌉` times, and from a
/// fresh pool the first `n` calls visit the backends in construction order.
pub proof fn lemma_round_robin_fairness(n: nat, start: int, calls: nat)
    requires
        n > 0,
    ensures
        forall|i: int|
            0 <= i < n ==> calls as int / n as int <= #[trigger] occurrences(
                round_robin_run(n, start, calls),
                i,
            ) <= (calls + n - 1) / (n as int),
        start == 0 && calls >= n ==> round_robin_run(n, start, calls).take(n as int) == Seq::new(
            n,
            |t: int| t,
        ),
{
    assert forall|i: int| 0 <= i < n implies calls as int / n as int <= #[trigger] occurrences(
        round_robin_run(n, start, calls),
        i,
    ) <= (calls + n - 1) / (n as int) by {
        lemma_round_robin_count(n, start, i, calls);
        let d = (i - start) % (n as int);
        lemma_mod_bound(i - start, n as int);
        lemma_div_is_ordered(calls as int, calls + n - 1 - d, n as int);
        lemma_div_is_ordered(calls + n - 1 - d, calls + n - 1, n as int);
    }
    if start == 0 && calls >= n {
        let run = round_robin_run(n, start, calls).take(n as int);
        assert forall|t: int| 0 <= t < n implies run[t] == t by {
            lemma_small_mod(t as nat, n);
        }
        assert(run =~= Seq::new(n, |t: int| t));
    }
}

/// Distinct cursors: up to `n` consecutive round robin calls receive
/// pairwise distinct positions of the pool, with no duplicate.
pub proof fn lemma_round_robin_distinct(n: nat, start: int, calls: nat)
    requires
        0 < calls <= n,
    ensures
        forall|t: int| 0 <= t < calls ==> 0 <= #[trigger] round_robin_run(n, start, calls)[t] < n,
        forall|t1: int, t2: int|
            0 <= t1 < calls && 0 <= t2 < calls && t1 != t2 ==> #[trigger] round_robin_run(
                n,
                start,
                calls,
            )[t1] != #[trigger] round_robin_run(n, start, calls)[t2],
{
    let run = round_robin_run(n, start, calls);
    assert forall|t: int| 0 <= t < calls implies 0 <= #[trigger] run[t] < n by {
        lemma_mod_bound(start + t, n as int);
    }
    assert forall|t1: int, t2: int|
        0 <= t1 < calls && 0 <= t2 < calls && t1 != t2 implies #[trigger] run[t1] != #[trigger] run[t2] by {
        let nn = n as int;
        lemma_fundamental_div_mod(start + t1, nn);
        lemma_fundamental_div_mod(start + t2, nn);
        let q1 = (start + t1) / nn;
        let q2 = (start + t2) / nn;
        if run[t1] == run[t2] {
            assert(t1 - t2 == nn * (q1 - q2)) by (nonlinear_arith)
                requires
                    start + t1 == nn * q1 + (start + t1) % nn,
                    start + t2 == nn * q2 + (start + t2) % nn,
                    (start + t1) % nn == (start + t2) % nn,
            ;
            assert(false) by (nonlinear_arith)
                requires
                    t1 - t2 == nn * (q1 - q2),
                    t1 != t2,
                    -nn < t1 - t2 < nn,
                    nn > 0,
            ;
        }
    }
}

/// Weighted fairness: any `sum(weights)` consecutive slots of the schedule,
/// from any position, hold backend `i` exactly `weight_i` times.
pub proof fn lemma_weighted_window(entries: Seq<EntryView>, start: int)
    ensures
        forall|i: int|
            0 <= i < entries.len() ==> #[trigger] occurrences(
                schedule_order(expand(entries), start),
                i,
            ) == entries[i].weight,
{
    let s = expand(entries);
    let w = s.len() as int;
    let window = schedule_order(s, start);
    if w > 0 {
        let r = start % w;
        lemma_mod_bound(start, w);
        assert forall|j: int| 0 <= j < w implies window[j] == (s.subrange(r, w) + s.subrange(0, r))[j] by {
            lemma_add_mod_noop(start, j, w);
            lemma_small_mod(j as nat, w as nat);
            if r + j < w {
                lemma_small_mod((r + j) as nat, w as nat);
            } else {
                lemma_mod_sub_multiples_vanish(r + j, w);
                lemma_small_mod((r + j - w) as nat, w as nat);
            }
        }
        assert(window =~= s.subrange(r, w) + s.subrange(0, r));
        assert(s =~= s.subrange(0, r) + s.subrange(r, w));
    } else {
        assert(window =~= s);
    }
    assert forall|i: int| 0 <= i < entries.len() implies #[trigger] occurrences(window, i)
        == entries[i].weight by {
        lemma_occurrences_expand(entries, i);
        if w > 0 {
            let r = start % w;
            lemma_occurrences_concat(s.subrange(r, w), s.subrange(0, r), i);
            lemma_occurrences_concat(s.subrange(0, r), s.subrange(r, w), i);
        }
    }
}

/// With the entry under the schedule position alive, weighted round robin
/// picks it; the schedule position then advances by one, cyclically.
pub proof fn lemma_weighted_step(v: PoolView)
    requires
        v.valid(),
        v.schedule().len() > 0,
        v.entries[v.schedule()[v.schedule_cursor as int]].alive,
    ensures
        v.weighted_pick() == Some(v.schedule()[v.schedule_cursor as int]),
{
    lemma_expand_bounds(v.entries);
    let e = v.weighted_start();
    lemma_small_mod(e as nat, v.len());
    assert(ring_order(v.len(), e)[0] == e);
}

/// `t` consecutive round robin calls, from `states[0]`, reach `states[t]`.
pub open spec fn round_robin_calls(states: Seq<PoolView>, picks: Seq<int>) -> bool {
    &&& states.len() == picks.len() + 1
    &&& forall|t: int|
        0 <= t < picks.len() ==> {
            &&& states[t + 1] == (PoolView { cursor: (#[trigger] states[t]).next_cursor(), ..states[t] })
            &&& states[t].round_robin_pick() == Some(picks[t])
        }
}

/// `t` consecutive weighted round robin calls, from `states[0]`, reach `states[t]`.
pub open spec fn weighted_calls(states: Seq<PoolView>, picks: Seq<int>) -> bool {
    &&& states.len() == picks.len() + 1
    &&& forall|t: int|
        0 <= t < picks.len() ==> {
            &&& states[t + 1] == (PoolView {
                schedule_cursor: (#[trigger] states[t]).next_schedule_cursor(),
                ..states[t]
            })
            &&& states[t].weighted_pick() == Some(picks[t])
        }
}

proof fn lemma_round_robin_calls_reach(states: Seq<PoolView>, picks: Seq<int>, t: int)
    requires
        round_robin_calls(states, picks),
        states[0].valid(),
        all_alive(states[0].entries),
        0 <= t <= picks.len(),
    ensures
        states[t].valid(),
        states[t].entries == states[0].entries,
        states[t].cursor == (states[0].cursor + t) % (states[0].len() as int),
        t < picks.len() ==> picks[t] == states[t].cursor,
    decreases t,
{
    let n = states[0].len() as int;
    if t == 0 {
        lemma_small_mod(states[0].cursor, states[0].len());
    } else {
        lemma_round_robin_calls_reach(states, picks, t - 1);
        let prev = states[t - 1];
        assert(states[t] == (PoolView { cursor: prev.next_cursor(), ..prev }));
        lemma_mod_bound(prev.cursor + 1int, n);
        lemma_add_mod_noop(states[0].cursor + t - 1, 1, n);
        if n > 1 {
            lemma_small_mod(1, n as nat);
        } else {
            assert(1int % 1 == 0);
        }
        lemma_add_mod_noop(states[0].cursor + t - 1, 1, n);
    }
    if t < picks.len() {
        lemma_round_robin_step(states[t], 0);
    }
}

/// Round-robin fairness over actual calls: `N` consecutive calls with every
/// backend alive return `round_robin_run` from the first cursor, so each
/// backend is returned `⌊N/k⌋` or `⌈N/k⌉` times, a fresh pool is visited
/// in construction order, and up to `k` calls return pairwise distinct
/// backends.
pub proof fn lemma_round_robin_calls(states: Seq<PoolView>, picks: Seq<int>)
    requires
        round_robin_calls(states, picks),
        states[0].valid(),
        all_alive(states[0].entries),
    ensures
        picks == round_robin_run(states[0].len(), states[0].cursor as int, picks.len()),
        forall|i: int|
            0 <= i < states[0].len() ==> picks.len() as int / states[0].len() as int
                <= #[trigger] occurrences(picks, i) <= (picks.len() + states[0].len() - 1)
                / (states[0].len() as int),
        states[0].cursor == 0 && picks.len() >= states[0].len() ==> forall|t: int|
            0 <= t < states[0].len() ==> #[trigger] picks[t] == t,
        picks.len() <= states[0].len() ==> forall|t1: int, t2: int|
            0 <= t1 < t2 < picks.len() ==> #[trigger] picks[t1] != #[trigger] picks[t2],
{
    let n = states[0].len();
    let c = states[0].cursor as int;
    let run = round_robin_run(n, c, picks.len());
    assert forall|t: int| 0 <= t < picks.len() implies picks[t] == run[t] by {
        lemma_round_robin_calls_reach(states, picks, t);
    }
    assert(picks =~= run);
    lemma_round_robin_fairness(n, c, picks.len());
    if c == 0 && picks.len() >= n {
        assert forall|t: int| 0 <= t < n implies #[trigger] picks[t] == t by {
            assert(run.take(n as int)[t] == t);
        }
    }
    if 0 < picks.len() <= n {
        lemma_round_robin_distinct(n, c, picks.len());
        assert forall|t1: int, t2: int| 0 <= t1 < t2 < picks.len() implies #[trigger] picks[t1]
            != #[trigger] picks[t2] by {
            assert(run[t1] != run[t2]);
        }
    }
}

proof fn lemma_weighted_calls_reach(states: Seq<PoolView>, picks: Seq<int>, t: int)
    requires
        weighted_calls(states, picks),
        states[0].valid(),
        all_alive(states[0].entries),
        states[0].schedule().len() > 0,
        0 <= t <= picks.len(),
    ensures
        states[t].valid(),
        states[t].entries == states[0].entries,
        states[t].schedule_cursor == (states[0].schedule_cursor + t) % (
        states[0].schedule().len() as int),
        t < picks.len() ==> picks[t] == states[0].schedule()[states[t].schedule_cursor as int],
    decreases t,
{
    let w = states[0].schedule().len() as int;
    if t == 0 {
        lemma_small_mod(states[0].schedule_cursor, w as nat);
    } else {
        lemma_weighted_calls_reach(states, picks, t - 1);
        let prev = states[t - 1];
        assert(states[t] == (PoolView { schedule_cursor: prev.next_schedule_cursor(), ..prev }));
        lemma_mod_bound(prev.schedule_cursor + 1int, w);
        lemma_add_mod_noop(states[0].schedule_cursor + t - 1, 1, w);
        if w > 1 {
            lemma_small_mod(1, w as nat);
        } else {
            assert(1int % 1 == 0);
        }
    }
    if t < picks.len() {
        lemma_expand_bounds(states[t].entries);
        lemma_weighted_step(states[t]);
    }
}

/// With every backend alive, `sum(weights)` consecutive results of weighted
/// round robin calls are the schedule read cyclically from the matching position.
proof fn lemma_weighted_calls_window(states: Seq<PoolView>, picks: Seq<int>, from: int)
    requires
        weighted_calls(states, picks),
        states[0].valid(),
        all_alive(states[0].entries),
        states[0].schedule().len() > 0,
        0 <= from,
        from + states[0].schedule().len() <= picks.len(),
    ensures
        picks.subrange(from, from + states[0].schedule().len()) == schedule_order(
            states[0].schedule(),
            states[0].schedule_cursor + from,
        ),
{
    let sched = states[0].schedule();
    let w = sched.len() as int;
    let s0 = states[0].schedule_cursor as int;
    let window = picks.subrange(from, from + w);
    let target = schedule_order(sched, s0 + from);
    assert forall|j: int| 0 <= j < w implies window[j] == target[j] by {
        lemma_weighted_calls_reach(states, picks, from + j);
        assert(s0 + (from + j) == (s0 + from) + j);
    }
    assert(window =~= target);
}

/// Weighted fairness over actual calls: with every backend alive, any
/// `sum(weights)` consecutive results of weighted round robin calls hold
/// backend `i` exactly `weight_i` times.
pub proof fn lemma_weighted_calls(states: Seq<PoolView>, picks: Seq<int>, from: int)
    requires
        weighted_calls(states, picks),
        states[0].valid(),
        all_alive(states[0].entries),
        0 <= from,
        from + states[0].schedule().len() <= picks.len(),
    ensures
        forall|i: int|
            0 <= i < states[0].len() ==> #[trigger] occurrences(
                picks.subrange(from, from + states[0].schedule().len()),
                i,
            ) == states[0].entries[i].weight,
{
    let sched = states[0].schedule();
    let w = sched.len() as int;
    let s0 = states[0].schedule_cursor as int;
    if w > 0 {
        lemma_weighted_calls_window(states, picks, from);
    } else {
        assert(picks.subrange(from, from + w) =~= schedule_order(sched, s0 + from));
    }
    lemma_weighted_window(states[0].entries, s0 + from);
}

/// Liveness exclusion: whatever the cursors, weights and connection counts,
/// no strategy picks an entry that is not alive, and every strategy finds
/// nothing to pick exactly where no entry is alive.
pub proof fn lemma_liveness_exclusion(kind: StrategyKind, v: PoolView, i: int)
    requires
        v.valid(),
    ensures
        selects(kind, v, i) ==> 0 <= i < v.len() && v.entries[i].alive,
        selects_none(kind, v) <==> none_alive(v.entries),
{
    lemma_picks_alive(v);
}

/// Counter release: a request that a strategy started on entry `i` and that
/// then ended, whether it succeeded or failed, leaves every connection count
/// as it was before the request.
pub proof fn lemma_request_restores_counts(kind: StrategyKind, v: PoolView, i: int)
    requires
        v.valid(),
        selects(kind, v, i),
        v.entries[i].active_connections < usize::MAX,
    ensures
        with_connection_released(
            with_connection_added(after_select(kind, v).entries, i),
            i,
        ) == v.entries,
{
    lemma_liveness_exclusion(kind, v, i);
    let added = with_connection_added(v.entries, i);
    assert(with_connection_released(added, i) =~= v.entries);
}

} // verus!
