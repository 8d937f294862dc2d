use vstd::prelude::*;
use crate::access::{holds, lemma_holds_monotone};
use crate::explore::{converged, entered, entry_adds, granted, map_le, region_closed, worlds_le, worlds_wf};
use crate::inventory::InventoryModel;
use crate::region::{map_wf, reach, RegionGraph, ROOT};
use crate::state::GlobalState;

verus! {

/// The worlds' reachability maps together with the shared inventory.
pub type SearchState = (Seq<Seq<Seq<bool>>>, InventoryModel);

/// No exit leads into `ROOT`: it is reached only by a save-and-reload.
pub open spec fn no_root_target(g: &RegionGraph) -> bool {
    forall|r: int, e: int|
        0 <= r < g.region_count() && 0 <= e < g.regions@[r].exits@.len() ==> #[trigger] g.regions@[r].exits@[e].target != ROOT
}

/// Every state reachable in a region that an exit leads into carries everything that entering
/// the region in that state marks.
pub open spec fn consistent(g: &RegionGraph, ws: Seq<Seq<Seq<bool>>>) -> bool {
    forall|w: int, t: int, s: GlobalState, r: int, x: GlobalState|
        0 <= w < ws.len() && 0 <= t < g.region_count() && g.is_target(t) && reach(ws[w], t, s) && 0 <= r
            < g.region_count() && #[trigger] entry_adds(g, t, s, r, x) ==> #[trigger] reach(ws[w], r, x)
}

/// A fixed point in the strong sense: every satisfied exit carries everything that entering its
/// target marks, and every granted pickup is held.
pub open spec fn fully_closed(g: &RegionGraph, st: SearchState) -> bool {
    &&& forall|w: int, r: int|
        0 <= w < st.0.len() && 0 <= r < g.region_count() ==> #[trigger] region_closed(g, st.0[w], st.1, r)
    &&& forall|w: int, r: int, e: int, s: GlobalState, r2: int, x: GlobalState|
        0 <= w < st.0.len() && 0 <= r < g.region_count() && 0 <= e < g.regions@[r].exits@.len() && reach(
            st.0[w],
            r,
            s,
        ) && holds(g.regions@[r].exits@[e].access, s, st.1) && 0 <= r2 < g.region_count()
            && #[trigger] entry_adds(g, g.regions@[r].exits@[e].target as int, s, r2, x) ==> #[trigger] reach(
            st.0[w],
            r2,
            x,
        )
}

/// `a` holds at most what `b` holds.
pub open spec fn below(a: SearchState, b: SearchState) -> bool {
    worlds_le(a.0, b.0) && a.1.le(b.1)
}

/// A valid search state for this graph.
pub open spec fn state_wf(g: &RegionGraph, st: SearchState) -> bool {
    worlds_wf(st.0, g.region_count()) && g.inventory_fits(st.1)
}

/// One action of the explorer: a granted pickup that is not held yet is collected.
pub open spec fn item_step(g: &RegionGraph, a: SearchState, b: SearchState, w: int, r: int, k: int) -> bool {
    &&& 0 <= w < a.0.len()
    &&& 0 <= r < g.region_count()
    &&& 0 <= k < g.regions@[r].items@.len()
    &&& granted(g.regions@[r].items@[k].accesses@, a.0[w], r, a.1)
    &&& !a.1.holds_pickup(g.regions@[r].items@[k].pickup)
    &&& b.0 == a.0
    &&& b.1 == a.1.collected(g.regions@[r].items@[k].pickup)
}

/// One action of the explorer: a satisfied exit into a region where the state is not reachable
/// yet is taken, with the target's global state transition.
pub open spec fn exit_step(g: &RegionGraph, a: SearchState, b: SearchState, w: int, r: int, e: int, s: GlobalState) -> bool {
    &&& 0 <= w < a.0.len()
    &&& 0 <= r < g.region_count()
    &&& 0 <= e < g.regions@[r].exits@.len()
    &&& reach(a.0[w], r, s)
    &&& holds(g.regions@[r].exits@[e].access, s, a.1)
    &&& !reach(a.0[w], g.regions@[r].exits@[e].target as int, s)
    &&& b.1 == a.1
    &&& b.0.len() == a.0.len()
    &&& forall|v: int| 0 <= v < a.0.len() && v != w ==> #[trigger] b.0[v] == a.0[v]
    &&& entered(g, a.0[w], b.0[w], g.regions@[r].exits@[e].target as int, s)
}

pub open spec fn step(g: &RegionGraph, a: SearchState, b: SearchState) -> bool {
    ||| exists|w: int, r: int, k: int| #[trigger] item_step(g, a, b, w, r, k)
    ||| exists|w: int, r: int, e: int, s: GlobalState| #[trigger] exit_step(g, a, b, w, r, e, s)
}

/// A sequence of explorer actions, in any order.
pub open spec fn is_run(g: &RegionGraph, run: Seq<SearchState>) -> bool {
    &&& run.len() >= 1
    &&& forall|i: int| 0 <= i < run.len() - 1 ==> #[trigger] step(g, run[i], run[i + 1])
}

/// Entering a region in a state that entering it in `s` marks there marks nothing more.
proof fn lemma_entry_closed(g: &RegionGraph, t: int, s: GlobalState, x: GlobalState, r2: int, y: GlobalState)
    requires
        g.wf(),
        0 <= t < g.region_count(),
        t != ROOT,
        entry_adds(g, t, s, t, x),
        entry_adds(g, t, x, r2, y),
    ensures
        entry_adds(g, t, s, r2, y),
{
}

proof fn lemma_step_wf(g: &RegionGraph, a: SearchState, b: SearchState)
    requires
        g.wf(),
        state_wf(g, a),
        step(g, a, b),
    ensures
        state_wf(g, b),
        below(a, b),
{
    if exists|w: int, r: int, k: int| #[trigger] item_step(g, a, b, w, r, k) {
        let (w, r, k) = choose|w: int, r: int, k: int| #[trigger] item_step(g, a, b, w, r, k);
        let p = g.regions@[r].items@[k].pickup;
        assert(g.pickup_fits(p));
        crate::explore::lemma_collect_grows(a.1, p);
        assert forall|v: int| 0 <= v < a.0.len() implies map_le(#[trigger] a.0[v], b.0[v]) by {}
    } else {
        let (w, r, e, s) = choose|w: int, r: int, e: int, s: GlobalState| #[trigger] exit_step(g, a, b, w, r, e, s);
        assert forall|v: int| 0 <= v < b.0.len() implies map_wf(#[trigger] b.0[v], g.region_count()) by {
            if v != w {
                assert(b.0[v] == a.0[v]);
            }
        }
        assert forall|v: int| 0 <= v < a.0.len() implies map_le(#[trigger] a.0[v], b.0[v]) by {
            if v != w {
                assert(b.0[v] == a.0[v]);
            } else {
                assert forall|r2: int, x: GlobalState| 0 <= r2 < a.0[v].len() && #[trigger] reach(a.0[v], r2, x) implies reach(b.0[v], r2, x) by {}
            }
        }
    }
}

/// A step from below a strong fixed point stays below it.
proof fn lemma_step_below(g: &RegionGraph, a: SearchState, b: SearchState, x: SearchState)
    requires
        g.wf(),
        state_wf(g, a),
        state_wf(g, x),
        step(g, a, b),
        below(a, x),
        fully_closed(g, x),
    ensures
        below(b, x),
{
    if exists|w: int, r: int, k: int| #[trigger] item_step(g, a, b, w, r, k) {
        let (w, r, k) = choose|w: int, r: int, k: int| #[trigger] item_step(g, a, b, w, r, k);
        let loc = g.regions@[r].items@[k];
        let s = choose|s: GlobalState| #[trigger] reach(a.0[w], r, s) && exists|j: int| 0 <= j < loc.accesses@.len() && #[trigger] holds(loc.accesses@[j], s, a.1);
        let j = choose|j: int| 0 <= j < loc.accesses@.len() && #[trigger] holds(loc.accesses@[j], s, a.1);
        assert(map_le(a.0[w], x.0[w]));
        assert(reach(x.0[w], r, s));
        lemma_holds_monotone(loc.accesses@[j], s, a.1, x.1);
        assert(granted(loc.accesses@, x.0[w], r, x.1));
        assert(region_closed(g, x.0[w], x.1, r));
        assert(x.1.holds_pickup(loc.pickup));
        assert forall|c: int| 0 <= c < b.1.counts.len() implies b.1.counts[c] <= x.1.counts[c] by {
            assert(a.1.counts[c] <= x.1.counts[c]);
        }
        assert forall|c: int| 0 <= c < b.1.named.len() && b.1.named[c] implies x.1.named[c] by {}
        assert forall|c: int| 0 <= c < b.1.anonymous.len() && b.1.anonymous[c] implies x.1.anonymous[c] by {}
    } else {
        let (w, r, e, s) = choose|w: int, r: int, e: int, s: GlobalState| #[trigger] exit_step(g, a, b, w, r, e, s);
        let exit = g.regions@[r].exits@[e];
        assert(map_le(a.0[w], x.0[w]));
        assert(reach(x.0[w], r, s));
        lemma_holds_monotone(exit.access, s, a.1, x.1);
        assert forall|v: int| 0 <= v < b.0.len() implies map_le(#[trigger] b.0[v], x.0[v]) by {
            if v != w {
                assert(b.0[v] == a.0[v]);
                assert(map_le(a.0[v], x.0[v]));
            } else {
                assert forall|r2: int, y: GlobalState| 0 <= r2 < b.0[v].len() && #[trigger] reach(b.0[v], r2, y) implies reach(x.0[v], r2, y) by {
                    if reach(a.0[v], r2, y) {
                    } else {
                        assert(entry_adds(g, exit.target as int, s, r2, y));
                    }
                }
            }
        }
    }
}

/// A step keeps the worlds consistent when no exit leads into `ROOT`.
proof fn lemma_step_consistent(g: &RegionGraph, a: SearchState, b: SearchState)
    requires
        g.wf(),
        no_root_target(g),
        state_wf(g, a),
        consistent(g, a.0),
        step(g, a, b),
    ensures
        consistent(g, b.0),
{
    if exists|w: int, r: int, k: int| #[trigger] item_step(g, a, b, w, r, k) {
    } else {
        let (w, r, e, s) = choose|w: int, r: int, e: int, s: GlobalState| #[trigger] exit_step(g, a, b, w, r, e, s);
        let t0 = g.regions@[r].exits@[e].target as int;
        assert(t0 != ROOT);
        assert forall|v: int, t: int, s2: GlobalState, r2: int, y: GlobalState|
            0 <= v < b.0.len() && 0 <= t < g.region_count() && g.is_target(t) && reach(b.0[v], t, s2) && 0 <= r2
                < g.region_count() && #[trigger] entry_adds(g, t, s2, r2, y) implies #[trigger] reach(b.0[v], r2, y) by {
            let (rr, ee) = choose|rr: int, ee: int|
                0 <= rr < g.regions@.len() && 0 <= ee < g.regions@[rr].exits@.len()
                    && #[trigger] g.regions@[rr].exits@[ee].target == t;
            assert(t != ROOT);
            if v != w {
                assert(b.0[v] == a.0[v]);
            } else if reach(a.0[v], t, s2) {
                assert(reach(a.0[v], r2, y));
            } else {
                assert(entry_adds(g, t0, s, t, s2));
                assert(t == t0);
                lemma_entry_closed(g, t, s, s2, r2, y);
            }
        }
    }
}

/// A fixed point of the explorer whose worlds are consistent is a fixed point in the strong sense.
proof fn lemma_converged_fully_closed(g: &RegionGraph, st: SearchState)
    requires
        g.wf(),
        state_wf(g, st),
        converged(g, st.0, st.1),
        consistent(g, st.0),
    ensures
        fully_closed(g, st),
{
    assert forall|w: int, r: int| 0 <= w < st.0.len() && 0 <= r < g.region_count() implies #[trigger] region_closed(g, st.0[w], st.1, r) by {
        assert(crate::explore::world_closed(g, st.0[w], st.1));
    }
    assert forall|w: int, r: int, e: int, s: GlobalState, r2: int, x: GlobalState|
        0 <= w < st.0.len() && 0 <= r < g.region_count() && 0 <= e < g.regions@[r].exits@.len() && reach(st.0[w], r, s)
            && holds(g.regions@[r].exits@[e].access, s, st.1) && 0 <= r2 < g.region_count()
            && #[trigger] entry_adds(g, g.regions@[r].exits@[e].target as int, s, r2, x) implies #[trigger] reach(st.0[w], r2, x) by {
        let t = g.regions@[r].exits@[e].target as int;
        assert(crate::explore::world_closed(g, st.0[w], st.1));
        assert(region_closed(g, st.0[w], st.1, r));
        assert(reach(st.0[w], t, s));
        assert(g.is_target(t));
    }
}

/// Along a run from a consistent start, validity and consistency hold, and the start stays below.
proof fn lemma_run(g: &RegionGraph, run: Seq<SearchState>)
    requires
        g.wf(),
        no_root_target(g),
        is_run(g, run),
        state_wf(g, run[0]),
        consistent(g, run[0].0),
    ensures
        state_wf(g, run.last()),
        consistent(g, run.last().0),
        below(run[0], run.last()),
    decreases run.len(),
{
    if run.len() > 1 {
        let prefix = run.drop_last();
        assert(is_run(g, prefix)) by {
            assert forall|i: int| 0 <= i < prefix.len() - 1 implies #[trigger] step(g, prefix[i], prefix[i + 1]) by {
                assert(step(g, run[i], run[i + 1]));
            }
        }
        lemma_run(g, prefix);
        let a = prefix.last();
        let i = run.len() - 2;
        assert(step(g, run[i], run[i + 1]));
        assert(prefix.last() == run[i]);
        lemma_step_wf(g, a, run.last());
        lemma_step_consistent(g, a, run.last());
        lemma_below_trans(g, run[0], a, run.last());
    } else {
        lemma_below_refl(g, run[0]);
    }
}

proof fn lemma_below_refl(g: &RegionGraph, a: SearchState)
    ensures
        below(a, a),
{
    assert forall|w: int| 0 <= w < a.0.len() implies map_le(#[trigger] a.0[w], a.0[w]) by {}
}

proof fn lemma_below_trans(g: &RegionGraph, a: SearchState, b: SearchState, c: SearchState)
    requires
        below(a, b),
        below(b, c),
    ensures
        below(a, c),
{
    crate::explore::lemma_inv_le_trans(a.1, b.1, c.1);
    assert forall|w: int| 0 <= w < a.0.len() implies map_le(#[trigger] a.0[w], c.0[w]) by {
        assert(map_le(a.0[w], b.0[w]));
        assert(map_le(b.0[w], c.0[w]));
        assert forall|r: int, x: GlobalState| 0 <= r < a.0[w].len() && #[trigger] reach(a.0[w], r, x) implies reach(c.0[w], r, x) by {
            assert(reach(b.0[w], r, x));
        }
    }
}

/// A run that starts below a strong fixed point ends below it.
proof fn lemma_run_below(g: &RegionGraph, run: Seq<SearchState>, x: SearchState)
    requires
        g.wf(),
        is_run(g, run),
        state_wf(g, run[0]),
        state_wf(g, x),
        below(run[0], x),
        fully_closed(g, x),
    ensures
        below(run.last(), x),
        state_wf(g, run.last()),
    decreases run.len(),
{
    if run.len() > 1 {
        let prefix = run.drop_last();
        assert(is_run(g, prefix)) by {
            assert forall|i: int| 0 <= i < prefix.len() - 1 implies #[trigger] step(g, prefix[i], prefix[i + 1]) by {
                assert(step(g, run[i], run[i + 1]));
            }
        }
        lemma_run_below(g, prefix, x);
        let i = run.len() - 2;
        assert(step(g, run[i], run[i + 1]));
        assert(prefix.last() == run[i]);
        lemma_step_wf(g, prefix.last(), run.last());
        lemma_step_below(g, prefix.last(), run.last(), x);
    }
}

proof fn lemma_below_antisym(g: &RegionGraph, a: SearchState, b: SearchState)
    requires
        state_wf(g, a),
        state_wf(g, b),
        below(a, b),
        below(b, a),
    ensures
        a == b,
{
    assert forall|w: int| 0 <= w < a.0.len() implies #[trigger] a.0[w] == b.0[w] by {
        assert(map_le(a.0[w], b.0[w]));
        assert(map_le(b.0[w], a.0[w]));
        assert(map_wf(a.0[w], g.region_count()));
        assert(map_wf(b.0[w], g.region_count()));
        assert forall|r: int| 0 <= r < a.0[w].len() implies #[trigger] a.0[w][r] == b.0[w][r] by {
            assert forall|i: int| 0 <= i < a.0[w][r].len() implies a.0[w][r][i] == b.0[w][r][i] by {
                let s = crate::state::lemma_index_onto(i);
                assert(reach(a.0[w], r, s) == reach(b.0[w], r, s));
            }
            assert(a.0[w][r] =~= b.0[w][r]);
        }
        assert(a.0[w] =~= b.0[w]);
    }
    assert(a.0 =~= b.0);
    assert forall|c: int| 0 <= c < a.1.counts.len() implies a.1.counts[c] == b.1.counts[c] by {
        assert(a.1.counts[c] <= b.1.counts[c]);
        assert(b.1.counts[c] <= a.1.counts[c]);
    }
    assert forall|c: int| 0 <= c < a.1.named.len() implies a.1.named[c] == b.1.named[c] by {}
    assert forall|c: int| 0 <= c < a.1.anonymous.len() implies a.1.anonymous[c] == b.1.anonymous[c] by {}
    assert(a.1.counts =~= b.1.counts);
    assert(a.1.named =~= b.1.named);
    assert(a.1.anonymous =~= b.1.anonymous);
}

/// Order independence: when no exit leads into `ROOT` and the start is consistent, any two runs
/// of explorer actions from the same start that end at fixed points, whatever order they took
/// exits and pickups in, end at the same state.
pub proof fn lemma_order_independent(g: &RegionGraph, run1: Seq<SearchState>, run2: Seq<SearchState>)
    requires
        g.wf(),
        no_root_target(g),
        is_run(g, run1),
        is_run(g, run2),
        run1[0] == run2[0],
        state_wf(g, run1[0]),
        consistent(g, run1[0].0),
        converged(g, run1.last().0, run1.last().1),
        converged(g, run2.last().0, run2.last().1),
    ensures
        run1.last() == run2.last(),
{
    lemma_run(g, run1);
    lemma_run(g, run2);
    lemma_converged_fully_closed(g, run1.last());
    lemma_converged_fully_closed(g, run2.last());
    lemma_run_below(g, run1, run2.last());
    lemma_run_below(g, run2, run1.last());
    lemma_below_antisym(g, run1.last(), run2.last());
}

/// Some run of explorer actions leads from `a` to `b`.
pub open spec fn runs_to(g: &RegionGraph, a: SearchState, b: SearchState) -> bool {
    exists|run: Seq<SearchState>| #[trigger] is_run(g, run) && run[0] == a && run.last() == b
}

pub proof fn lemma_runs_to_refl(g: &RegionGraph, a: SearchState)
    ensures
        runs_to(g, a, a),
{
    let run = seq![a];
    assert(is_run(g, run));
}

pub proof fn lemma_runs_to_step(g: &RegionGraph, a: SearchState, b: SearchState, c: SearchState)
    requires
        runs_to(g, a, b),
        step(g, b, c),
    ensures
        runs_to(g, a, c),
{
    let run = choose|run: Seq<SearchState>| #[trigger] is_run(g, run) && run[0] == a && run.last() == b;
    let longer = run.push(c);
    assert forall|i: int| 0 <= i < longer.len() - 1 implies #[trigger] step(g, longer[i], longer[i + 1]) by {
        if i < run.len() - 1 {
            assert(step(g, run[i], run[i + 1]));
        }
    }
    assert(is_run(g, longer));
}

pub proof fn lemma_runs_to_trans(g: &RegionGraph, a: SearchState, b: SearchState, c: SearchState)
    requires
        runs_to(g, a, b),
        runs_to(g, b, c),
    ensures
        runs_to(g, a, c),
{
    let run2 = choose|run: Seq<SearchState>| #[trigger] is_run(g, run) && run[0] == b && run.last() == c;
    lemma_runs_to_prefix(g, a, run2, run2.len() as int);
}

proof fn lemma_runs_to_prefix(g: &RegionGraph, a: SearchState, run: Seq<SearchState>, n: int)
    requires
        is_run(g, run),
        1 <= n <= run.len(),
        runs_to(g, a, run[0]),
    ensures
        runs_to(g, a, run[n - 1]),
    decreases n,
{
    if n > 1 {
        lemma_runs_to_prefix(g, a, run, n - 1);
        assert(step(g, run[n - 2], run[n - 2 + 1]));
        lemma_runs_to_step(g, a, run[n - 2], run[n - 1]);
    }
}

/// The explorer's result does not depend on the order of its actions: when no exit leads into
/// `ROOT` and the start is consistent, a fixed point that a run reaches from the start equals the
/// end of any other run from the start that ends at a fixed point.
pub proof fn lemma_explore_order_independent(g: &RegionGraph, start: SearchState, result: SearchState, other: Seq<SearchState>)
    requires
        g.wf(),
        no_root_target(g),
        state_wf(g, start),
        consistent(g, start.0),
        runs_to(g, start, result),
        converged(g, result.0, result.1),
        is_run(g, other),
        other[0] == start,
        converged(g, other.last().0, other.last().1),
    ensures
        other.last() == result,
{
    let run = choose|run: Seq<SearchState>| #[trigger] is_run(g, run) && run[0] == start && run.last() == result;
    lemma_order_independent(g, run, other);
}

} // verus!
