use vstd::prelude::*;
use crate::access::{evaluate, holds, Access};
use crate::common::TimeOfDayBehavior;
use crate::inventory::{Inventory, InventoryModel, Pickup};
use crate::region::{
    falses, falses2, lemma_falses_update, map_wf, reach, ReachabilityMap, RegionGraph, ROOT,
};
use crate::state::{GlobalState, TimeOfDay, STATE_COUNT};
use crate::fixpoint::{
    exit_step, item_step, lemma_runs_to_refl, lemma_runs_to_step, lemma_runs_to_trans, runs_to, step,
};

verus! {

/// Whether entering region `t` in state `s` marks state `x` reachable in region `r`: the global
/// state transition of `t`'s time-of-day behavior, with the save-and-reload at `ROOT`.
pub open spec fn entry_adds(g: &RegionGraph, t: int, s: GlobalState, r: int, x: GlobalState) -> bool {
    let info = g.regions@[t];
    let sw = info.savewarp;
    match info.time_of_day {
        TimeOfDayBehavior::Unaltered => {
            ||| (r == t && x == s)
            ||| (r == ROOT && x == s.with_savewarp(sw))
            ||| (t == g.time_travel_region && r == t && x == s.with_age_flipped())
            ||| (t == g.time_travel_region && r == ROOT && x == s.with_age_flipped().with_savewarp(sw))
        },
        TimeOfDayBehavior::Static => {
            ||| (r == t && x == s)
            ||| (r == ROOT && x == s.with_savewarp(sw))
        },
        TimeOfDayBehavior::Passes => {
            ||| (r == t && x.age == s.age && x.savewarp == s.savewarp)
            ||| (r == ROOT && x.age == s.age && x.savewarp == sw)
        },
        TimeOfDayBehavior::OutsideGanonsCastle => {
            ||| (r == t && x.age == s.age && x.savewarp == s.savewarp)
            ||| (r == ROOT && x == s.with_savewarp(sw).with_time(TimeOfDay::Dampe))
        },
    }
}

/// `after` is `before` with everything that entering `t` in state `s` marks.
pub open spec fn entered(g: &RegionGraph, before: Seq<Seq<bool>>, after: Seq<Seq<bool>>, t: int, s: GlobalState) -> bool {
    &&& map_wf(after, before.len() as int)
    &&& forall|r: int, x: GlobalState|
        0 <= r < before.len() ==> #[trigger] reach(after, r, x) == (reach(before, r, x) || entry_adds(
            g,
            t,
            s,
            r,
            x,
        ))
}

/// Everything reachable in `a` is reachable in `b`.
pub open spec fn map_le(a: Seq<Seq<bool>>, b: Seq<Seq<bool>>) -> bool {
    &&& a.len() == b.len()
    &&& forall|r: int, x: GlobalState| 0 <= r < a.len() && #[trigger] reach(a, r, x) ==> reach(b, r, x)
}

/// Marks `s` reachable in region `r` at every time of day.
fn mark_all_times(m: &mut ReachabilityMap, r: usize, s: GlobalState)
    requires
        map_wf(old(m)@, old(m)@.len() as int),
        r < old(m)@.len(),
    ensures
        map_wf(final(m)@, old(m)@.len() as int),
        forall|r2: int, x: GlobalState|
            0 <= r2 < old(m)@.len() ==> #[trigger] reach(final(m)@, r2, x) == (reach(old(m)@, r2, x) || (r2
                == r && x.age == s.age && x.savewarp == s.savewarp)),
        falses2(final(m)@) <= falses2(old(m)@),
        !reach(old(m)@, r as int, s) ==> falses2(final(m)@) < falses2(old(m)@),
{
    m.insert(r, GlobalState { time_of_day: TimeOfDay::Noon, ..s });
    m.insert(r, GlobalState { time_of_day: TimeOfDay::Dampe, ..s });
    m.insert(r, GlobalState { time_of_day: TimeOfDay::Midnight, ..s });
}

/// Marks `s` reachable in region `t`, and at `ROOT` with `t`'s savewarp.
fn mark_with_savewarp(g: &RegionGraph, m: &mut ReachabilityMap, t: usize, s: GlobalState)
    requires
        g.wf(),
        map_wf(old(m)@, g.region_count()),
        t < g.region_count(),
    ensures
        map_wf(final(m)@, g.region_count()),
        forall|r2: int, x: GlobalState|
            0 <= r2 < g.region_count() ==> #[trigger] reach(final(m)@, r2, x) == (reach(old(m)@, r2, x) || (r2
                == t && x == s) || (r2 == ROOT && x == s.with_savewarp(g.regions@[t as int].savewarp))),
        falses2(final(m)@) <= falses2(old(m)@),
        !reach(old(m)@, t as int, s) ==> falses2(final(m)@) < falses2(old(m)@),
{
    m.insert(t, s);
    m.insert(ROOT, GlobalState { savewarp: g.regions[t].savewarp, ..s });
}

/// Marks what entering region `t` in state `s` makes reachable.
pub fn enter(g: &RegionGraph, m: &mut ReachabilityMap, t: usize, s: GlobalState)
    requires
        g.wf(),
        map_wf(old(m)@, g.region_count()),
        t < g.region_count(),
    ensures
        entered(g, old(m)@, final(m)@, t as int, s),
        falses2(final(m)@) <= falses2(old(m)@),
        !reach(old(m)@, t as int, s) ==> falses2(final(m)@) < falses2(old(m)@),
{
    let ghost m0 = m@;
    let info = &g.regions[t];
    let sw = info.savewarp;
    match info.time_of_day {
        TimeOfDayBehavior::Unaltered => {
            mark_with_savewarp(g, m, t, s);
            if t == g.time_travel_region {
                // the checkpoint can be bypassed here, so the age can change
                let ghost m1 = m@;
                mark_with_savewarp(g, m, t, GlobalState { age: s.age.not(), ..s });
                assert forall|r: int, x: GlobalState| 0 <= r < m0.len() implies #[trigger] reach(m@, r, x)
                    == (reach(m0, r, x) || entry_adds(g, t as int, s, r, x)) by {
                    assert(reach(m@, r, x) == (reach(m1, r, x) || (r == t && x == s.with_age_flipped()) || (r
                        == ROOT && x == s.with_age_flipped().with_savewarp(sw))));
                }
            }
        },
        TimeOfDayBehavior::Static => {
            // the time can only be set by reloading the scene, which is not modeled
            mark_with_savewarp(g, m, t, s);
        },
        TimeOfDayBehavior::Passes => {
            mark_all_times(m, t, s);
            let ghost m1 = m@;
            mark_all_times(m, ROOT, GlobalState { savewarp: sw, ..s });
            assert forall|r: int, x: GlobalState| 0 <= r < m0.len() implies #[trigger] reach(m@, r, x)
                == (reach(m0, r, x) || entry_adds(g, t as int, s, r, x)) by {
                assert(reach(m@, r, x) == (reach(m1, r, x) || (r == ROOT && x.age == s.age && x.savewarp == sw)));
            }
        },
        TimeOfDayBehavior::OutsideGanonsCastle => {
            // Time of day here is always Dampe time, but every time of day is marked reachable so
            // that arriving with another time does not count as new access over and over. Exits
            // from here check for Dampe time so the other values do not leak out.
            mark_all_times(m, t, s);
            let ghost m1 = m@;
            m.insert(ROOT, GlobalState { savewarp: sw, time_of_day: TimeOfDay::Dampe, ..s });
            assert forall|r: int, x: GlobalState| 0 <= r < m0.len() implies #[trigger] reach(m@, r, x)
                == (reach(m0, r, x) || entry_adds(g, t as int, s, r, x)) by {
                assert(reach(m@, r, x) == (reach(m1, r, x) || (r == ROOT && x == s.with_savewarp(sw).with_time(TimeOfDay::Dampe))));
            }
        },
    }
}

/// Some reachable state of region `r` satisfies one of the predicates.
pub open spec fn granted(accesses: Seq<Access>, m: Seq<Seq<bool>>, r: int, inv: InventoryModel) -> bool {
    exists|s: GlobalState|
        #[trigger] reach(m, r, s) && exists|j: int| 0 <= j < accesses.len() && #[trigger] holds(accesses[j], s, inv)
}

/// Whether any reachable state of region `r` satisfies any of `accesses`.
pub fn any_access(accesses: &Vec<Access>, m: &ReachabilityMap, r: usize, inv: &Inventory) -> (b: bool)
    requires
        map_wf(m@, m@.len() as int),
        r < m@.len(),
        inv@.wf(),
    ensures
        b == granted(accesses@, m@, r as int, inv@),
{
    let mut i: usize = 0;
    while i < STATE_COUNT
        invariant
            map_wf(m@, m@.len() as int),
            r < m@.len(),
            inv@.wf(),
            i <= STATE_COUNT,
            forall|s: GlobalState|
                s.spec_index() < i && #[trigger] reach(m@, r as int, s) ==> forall|j: int|
                    0 <= j < accesses@.len() ==> !#[trigger] holds(accesses@[j], s, inv@),
        decreases STATE_COUNT - i,
    {
        let s = GlobalState::at(i);
        if m.contains(r, s) {
            let mut j: usize = 0;
            while j < accesses.len()
                invariant
                    inv@.wf(),
                    reach(m@, r as int, s),
                    j <= accesses@.len(),
                    forall|k: int| 0 <= k < j ==> !#[trigger] holds(accesses@[k], s, inv@),
                decreases accesses@.len() - j,
            {
                if evaluate(&accesses[j], &s, inv) {
                    assert(reach(m@, r as int, s) && holds(accesses@[j as int], s, inv@));
                    return true;
                }
                j += 1;
            }
        }
        assert forall|x: GlobalState|
            x.spec_index() < i + 1 && #[trigger] reach(m@, r as int, x) implies forall|j: int|
                0 <= j < accesses@.len() ==> !#[trigger] holds(accesses@[j], x, inv@) by {
            crate::state::lemma_state_index_injective(x, s);
        }
        i += 1;
    }
    assert forall|s: GlobalState| #[trigger] reach(m@, r as int, s) implies !exists|j: int|
        0 <= j < accesses@.len() && #[trigger] holds(accesses@[j], s, inv@) by {
        crate::state::lemma_state_index_bounds(s);
    }
    false
}

/// Number of items not held at all.
pub open spec fn zeros(counts: Seq<u64>) -> nat
    decreases counts.len(),
{
    if counts.len() == 0 {
        0
    } else {
        zeros(counts.drop_last()) + if counts.last() == 0 {
            1nat
        } else {
            0nat
        }
    }
}

proof fn lemma_zeros_update(counts: Seq<u64>, i: int, v: u64)
    requires
        0 <= i < counts.len(),
        counts[i] == 0,
        v != 0,
    ensures
        zeros(counts.update(i, v)) == zeros(counts) - 1,
    decreases counts.len(),
{
    let u = counts.update(i, v);
    if i == counts.len() - 1 {
        assert(u.drop_last() =~= counts.drop_last());
    } else {
        assert(u.drop_last() =~= counts.drop_last().update(i, v));
        lemma_zeros_update(counts.drop_last(), i, v);
    }
}

/// How much an inventory can still grow: items not held and events not held.
pub open spec fn inv_measure(inv: InventoryModel) -> nat {
    zeros(inv.counts) + falses(inv.named) + falses(inv.anonymous)
}

/// Recording a pickup that is not held yet grows the inventory by exactly it.
pub proof fn lemma_collect_grows(inv: InventoryModel, p: Pickup)
    requires
        inv.wf(),
        inv.fits(p),
        !inv.holds_pickup(p),
    ensures
        inv.le(inv.collected(p)),
        inv.collected(p).wf(),
        inv.collected(p).holds_pickup(p),
        inv_measure(inv.collected(p)) == inv_measure(inv) - 1,
{
    match p {
        Pickup::Item(item) => {
            lemma_zeros_update(inv.counts, item.spec_index(), 1);
        },
        Pickup::NamedEvent(e) => {
            lemma_falses_update(inv.named, e as int);
        },
        Pickup::AnonymousEvent(e) => {
            lemma_falses_update(inv.anonymous, e as int);
        },
    }
}

pub proof fn lemma_inv_le_trans(a: InventoryModel, b: InventoryModel, c: InventoryModel)
    requires
        a.le(b),
        b.le(c),
    ensures
        a.le(c),
{
    assert forall|i: int| 0 <= i < a.counts.len() implies a.counts[i] <= c.counts[i] by {
        assert(a.counts[i] <= b.counts[i]);
    }
    assert forall|i: int| 0 <= i < a.named.len() && a.named[i] implies c.named[i] by {
        assert(b.named[i]);
    }
    assert forall|i: int| 0 <= i < a.anonymous.len() && a.anonymous[i] implies c.anonymous[i] by {
        assert(b.anonymous[i]);
    }
}

/// Every pickup of region `r` that some reachable state grants is held.
pub open spec fn items_closed(g: &RegionGraph, m: Seq<Seq<bool>>, inv: InventoryModel, r: int) -> bool {
    forall|k: int|
        0 <= k < g.regions@[r].items@.len() && granted(
            #[trigger] g.regions@[r].items@[k].accesses@,
            m,
            r,
            inv,
        ) ==> inv.holds_pickup(g.regions@[r].items@[k].pickup)
}

/// Every exit of region `r` that a reachable state satisfies leads to a region where that
/// state is reachable.
pub open spec fn exits_closed(g: &RegionGraph, m: Seq<Seq<bool>>, inv: InventoryModel, r: int) -> bool {
    forall|e: int, s: GlobalState|
        0 <= e < g.regions@[r].exits@.len() && reach(m, r, s) && #[trigger] holds(
            g.regions@[r].exits@[e].access,
            s,
            inv,
        ) ==> reach(m, g.regions@[r].exits@[e].target as int, s)
}

/// No step of the explorer changes anything in this world.
pub open spec fn world_closed(g: &RegionGraph, m: Seq<Seq<bool>>, inv: InventoryModel) -> bool {
    forall|r: int| 0 <= r < g.region_count() ==> #[trigger] region_closed(g, m, inv, r)
}

/// Neither a pickup nor an exit of region `r` changes anything.
pub open spec fn region_closed(g: &RegionGraph, m: Seq<Seq<bool>>, inv: InventoryModel, r: int) -> bool {
    items_closed(g, m, inv, r) && exits_closed(g, m, inv, r)
}

/// Collects every pickup of region `r` that a reachable state grants.
fn explore_items(
    g: &RegionGraph,
    m: &ReachabilityMap,
    inv: &mut Inventory,
    r: usize,
    Ghost(ws): Ghost<Seq<Seq<Seq<bool>>>>,
    Ghost(w): Ghost<int>,
) -> (progress: bool)
    requires
        0 <= w < ws.len(),
        ws[w] == m@,
        g.wf(),
        map_wf(m@, g.region_count()),
        r < g.region_count(),
        g.inventory_fits(old(inv)@),
    ensures
        g.inventory_fits(final(inv)@),
        old(inv)@.le(final(inv)@),
        progress ==> inv_measure(final(inv)@) < inv_measure(old(inv)@),
        !progress ==> final(inv)@ == old(inv)@ && items_closed(g, m@, final(inv)@, r as int),
        items_closed(g, m@, old(inv)@, r as int) ==> !progress,
        runs_to(g, (ws, old(inv)@), (ws, final(inv)@)),
{
    let ghost start = inv@;
    proof {
        lemma_runs_to_refl(g, (ws, start));
    }
    let items = &g.regions[r].items;
    let mut progress = false;
    let mut k: usize = 0;
    while k < items.len()
        invariant
            g.wf(),
            map_wf(m@, g.region_count()),
            r < g.region_count(),
            items == g.regions@[r as int].items,
            g.inventory_fits(inv@),
            k <= items@.len(),
            start.le(inv@),
            progress ==> inv_measure(inv@) < inv_measure(start),
            !progress ==> inv@ == start,
            !progress ==> forall|k2: int|
                0 <= k2 < k && granted(#[trigger] items@[k2].accesses@, m@, r as int, inv@)
                    ==> inv@.holds_pickup(items@[k2].pickup),
            items_closed(g, m@, start, r as int) ==> !progress,
            0 <= w < ws.len(),
            ws[w] == m@,
            runs_to(g, (ws, start), (ws, inv@)),
        decreases items@.len() - k,
    {
        let loc = &items[k];
        if !inv.holds(loc.pickup) && any_access(&loc.accesses, m, r, inv) {
            proof {
                assert(g.pickup_fits(g.regions@[r as int].items@[k as int].pickup));
                lemma_collect_grows(inv@, loc.pickup);
                lemma_inv_le_trans(start, inv@, inv@.collected(loc.pickup));
                assert(item_step(g, (ws, inv@), (ws, inv@.collected(loc.pickup)), w, r as int, k as int));
                assert(step(g, (ws, inv@), (ws, inv@.collected(loc.pickup))));
                lemma_runs_to_step(g, (ws, start), (ws, inv@), (ws, inv@.collected(loc.pickup)));
            }
            inv.collect_pickup(loc.pickup);
            progress = true;
        }
        k += 1;
    }
    progress
}

/// Follows every exit of region `r` in every state reachable there.
fn explore_exits(
    g: &RegionGraph,
    m: &mut ReachabilityMap,
    inv: &Inventory,
    r: usize,
    Ghost(ws): Ghost<Seq<Seq<Seq<bool>>>>,
    Ghost(w): Ghost<int>,
) -> (progress: bool)
    requires
        0 <= w < ws.len(),
        ws[w] == old(m)@,
        g.wf(),
        map_wf(old(m)@, g.region_count()),
        r < g.region_count(),
        g.inventory_fits(inv@),
    ensures
        map_wf(final(m)@, g.region_count()),
        map_le(old(m)@, final(m)@),
        progress ==> falses2(final(m)@) < falses2(old(m)@),
        !progress ==> final(m)@ == old(m)@ && exits_closed(g, final(m)@, inv@, r as int),
        exits_closed(g, old(m)@, inv@, r as int) ==> !progress,
        runs_to(g, (ws, inv@), (ws.update(w, final(m)@), inv@)),
{
    let ghost start = m@;
    proof {
        assert(ws.update(w, m@) =~= ws);
        lemma_runs_to_refl(g, (ws, inv@));
    }
    let exits = &g.regions[r].exits;
    let mut progress = false;
    let mut e: usize = 0;
    while e < exits.len()
        invariant
            g.wf(),
            r < g.region_count(),
            exits == g.regions@[r as int].exits,
            g.inventory_fits(inv@),
            map_wf(m@, g.region_count()),
            map_le(start, m@),
            e <= exits@.len(),
            progress ==> falses2(m@) < falses2(start),
            !progress ==> m@ == start,
            !progress ==> forall|e2: int, s: GlobalState|
                0 <= e2 < e && reach(m@, r as int, s) && #[trigger] holds(exits@[e2].access, s, inv@)
                    ==> reach(m@, exits@[e2].target as int, s),
            exits_closed(g, start, inv@, r as int) ==> !progress,
            0 <= w < ws.len(),
            runs_to(g, (ws, inv@), (ws.update(w, m@), inv@)),
        decreases exits@.len() - e,
    {
        let exit = &exits[e];
        let t = exit.target;
        assert(t < g.region_count());
        let mut i: usize = 0;
        while i < STATE_COUNT
            invariant
                g.wf(),
                r < g.region_count(),
                exits == g.regions@[r as int].exits,
                e < exits@.len(),
                exit == exits@[e as int],
                t == exit.target,
                t < g.region_count(),
                g.inventory_fits(inv@),
                map_wf(m@, g.region_count()),
                map_le(start, m@),
                i <= STATE_COUNT,
                progress ==> falses2(m@) < falses2(start),
                !progress ==> m@ == start,
                !progress ==> forall|e2: int, s: GlobalState|
                    0 <= e2 < e && reach(m@, r as int, s) && #[trigger] holds(exits@[e2].access, s, inv@)
                        ==> reach(m@, exits@[e2].target as int, s),
                !progress ==> forall|s: GlobalState|
                    s.spec_index() < i && reach(m@, r as int, s) && #[trigger] holds(exit.access, s, inv@)
                        ==> reach(m@, t as int, s),
                exits_closed(g, start, inv@, r as int) ==> !progress,
                0 <= w < ws.len(),
                runs_to(g, (ws, inv@), (ws.update(w, m@), inv@)),
            decreases STATE_COUNT - i,
        {
            let s = GlobalState::at(i);
            let ghost before = m@;
            if m.contains(r, s) && !m.contains(t, s) && evaluate(&exit.access, &s, inv) {
                enter(g, m, t, s);
                progress = true;
                proof {
                    let a = (ws.update(w, before), inv@);
                    let b = (ws.update(w, m@), inv@);
                    assert(exit_step(g, a, b, w, r as int, e as int, s));
                    assert(step(g, a, b));
                    lemma_runs_to_step(g, (ws, inv@), a, b);
                }
                assert(map_le(start, m@)) by {
                    assert forall|r2: int, x: GlobalState|
                        0 <= r2 < start.len() && #[trigger] reach(start, r2, x) implies reach(m@, r2, x) by {
                        assert(reach(before, r2, x));
                    }
                }
            }
            assert(!progress ==> forall|x: GlobalState|
                x.spec_index() < i + 1 && reach(m@, r as int, x) && #[trigger] holds(exit.access, x, inv@)
                    ==> reach(m@, t as int, x)) by {
                assert forall|x: GlobalState|
                    !progress && x.spec_index() < i + 1 && reach(m@, r as int, x) && #[trigger] holds(exit.access, x, inv@)
                    implies reach(m@, t as int, x) by {
                    crate::state::lemma_state_index_injective(x, s);
                }
            }
            i += 1;
        }
        assert(!progress ==> forall|e2: int, s: GlobalState|
            0 <= e2 < e + 1 && reach(m@, r as int, s) && #[trigger] holds(exits@[e2].access, s, inv@)
                ==> reach(m@, exits@[e2].target as int, s)) by {
            assert forall|e2: int, s: GlobalState|
                !progress && 0 <= e2 < e + 1 && reach(m@, r as int, s) && #[trigger] holds(exits@[e2].access, s, inv@)
                implies reach(m@, exits@[e2].target as int, s) by {
                crate::state::lemma_state_index_bounds(s);
            }
        }
        e += 1;
    }
    progress
}

/// Explores every region of one world once, in order.
fn explore_world(
    g: &RegionGraph,
    m: &mut ReachabilityMap,
    inv: &mut Inventory,
    Ghost(ws): Ghost<Seq<Seq<Seq<bool>>>>,
    Ghost(w): Ghost<int>,
) -> (progress: bool)
    requires
        0 <= w < ws.len(),
        ws[w] == old(m)@,
        g.wf(),
        map_wf(old(m)@, g.region_count()),
        g.inventory_fits(old(inv)@),
    ensures
        map_wf(final(m)@, g.region_count()),
        map_le(old(m)@, final(m)@),
        g.inventory_fits(final(inv)@),
        old(inv)@.le(final(inv)@),
        progress ==> falses2(final(m)@) + inv_measure(final(inv)@) < falses2(old(m)@) + inv_measure(
            old(inv)@,
        ),
        !progress ==> final(m)@ == old(m)@ && final(inv)@ == old(inv)@ && world_closed(
            g,
            final(m)@,
            final(inv)@,
        ),
        world_closed(g, old(m)@, old(inv)@) ==> !progress,
        runs_to(g, (ws, old(inv)@), (ws.update(w, final(m)@), final(inv)@)),
{
    let ghost m0 = m@;
    let ghost inv0 = inv@;
    proof {
        assert(ws.update(w, m@) =~= ws);
        lemma_runs_to_refl(g, (ws, inv0));
    }
    let mut progress = false;
    let mut r: usize = 0;
    while r < g.regions.len()
        invariant
            g.wf(),
            map_wf(m@, g.region_count()),
            map_le(m0, m@),
            g.inventory_fits(inv@),
            inv0.le(inv@),
            r <= g.region_count(),
            progress ==> falses2(m@) + inv_measure(inv@) < falses2(m0) + inv_measure(inv0),
            !progress ==> m@ == m0 && inv@ == inv0,
            !progress ==> forall|r2: int| 0 <= r2 < r ==> #[trigger] region_closed(g, m@, inv@, r2),
            world_closed(g, m0, inv0) ==> !progress,
            0 <= w < ws.len(),
            runs_to(g, (ws, inv0), (ws.update(w, m@), inv@)),
        decreases g.region_count() - r,
    {
        let ghost m1 = m@;
        let ghost inv1 = inv@;
        let ghost was_progress = progress;
        proof {
            if world_closed(g, m0, inv0) && !progress {
                assert(region_closed(g, m0, inv0, r as int));
            }
        }
        let ghost ws1 = ws.update(w, m@);
        let found_item = explore_items(g, m, inv, r, Ghost(ws1), Ghost(w));
        let ghost inv2 = inv@;
        let found_access = explore_exits(g, m, inv, r, Ghost(ws1), Ghost(w));
        proof {
            lemma_runs_to_trans(g, (ws, inv0), (ws1, inv1), (ws1, inv2));
            assert(ws1.update(w, m@) =~= ws.update(w, m@));
            lemma_runs_to_trans(g, (ws, inv0), (ws1, inv2), (ws.update(w, m@), inv@));
        }
        proof {
            lemma_inv_le_trans(inv0, inv1, inv@);
            assert forall|r2: int, x: GlobalState| 0 <= r2 < m0.len() && #[trigger] reach(m0, r2, x) implies reach(m@, r2, x) by {
                assert(reach(m1, r2, x));
            }
        }
        if found_item || found_access {
            progress = true;
        }
        proof {
            if !progress {
                assert(region_closed(g, m@, inv@, r as int));
                assert forall|r2: int| 0 <= r2 < r + 1 implies #[trigger] region_closed(g, m@, inv@, r2) by {
                    if r2 < r {
                        assert(region_closed(g, m1, inv1, r2));
                    }
                }
            }
        }
        r += 1;
    }
    progress
}

/// The reachability maps of all worlds.
pub open spec fn worlds_view(v: Seq<ReachabilityMap>) -> Seq<Seq<Seq<bool>>> {
    v.map_values(|m: ReachabilityMap| m@)
}

pub open spec fn worlds_wf(ws: Seq<Seq<Seq<bool>>>, n: int) -> bool {
    forall|w: int| 0 <= w < ws.len() ==> map_wf(#[trigger] ws[w], n)
}

/// Every world of `b` holds what the same world of `a` holds.
pub open spec fn worlds_le(a: Seq<Seq<Seq<bool>>>, b: Seq<Seq<Seq<bool>>>) -> bool {
    &&& a.len() == b.len()
    &&& forall|w: int| 0 <= w < a.len() ==> map_le(#[trigger] a[w], b[w])
}

/// A fixed point: no step of the explorer changes any world or the inventory.
pub open spec fn converged(g: &RegionGraph, ws: Seq<Seq<Seq<bool>>>, inv: InventoryModel) -> bool {
    forall|w: int| 0 <= w < ws.len() ==> world_closed(g, #[trigger] ws[w], inv)
}

pub open spec fn falses3(ws: Seq<Seq<Seq<bool>>>) -> nat
    decreases ws.len(),
{
    if ws.len() == 0 {
        0
    } else {
        falses3(ws.drop_last()) + falses2(ws.last())
    }
}

proof fn lemma_falses3_update(ws: Seq<Seq<Seq<bool>>>, w: int, m: Seq<Seq<bool>>)
    requires
        0 <= w < ws.len(),
    ensures
        falses3(ws.update(w, m)) == falses3(ws) - falses2(ws[w]) + falses2(m),
    decreases ws.len(),
{
    let u = ws.update(w, m);
    if w == ws.len() - 1 {
        assert(u.drop_last() =~= ws.drop_last());
    } else {
        assert(u.drop_last() =~= ws.drop_last().update(w, m));
        lemma_falses3_update(ws.drop_last(), w, m);
    }
}

/// One pass of the explorer over every world. The inventory is shared by all worlds.
pub fn explore_pass(g: &RegionGraph, region_access: &mut Vec<ReachabilityMap>, inventory: &mut Inventory) -> (progress: bool)
    requires
        g.wf(),
        worlds_wf(worlds_view(old(region_access)@), g.region_count()),
        g.inventory_fits(old(inventory)@),
    ensures
        worlds_wf(worlds_view(final(region_access)@), g.region_count()),
        worlds_le(worlds_view(old(region_access)@), worlds_view(final(region_access)@)),
        g.inventory_fits(final(inventory)@),
        old(inventory)@.le(final(inventory)@),
        progress ==> falses3(worlds_view(final(region_access)@)) + inv_measure(final(inventory)@)
            < falses3(worlds_view(old(region_access)@)) + inv_measure(old(inventory)@),
        !progress ==> worlds_view(final(region_access)@) == worlds_view(old(region_access)@)
            && final(inventory)@ == old(inventory)@,
        !progress ==> converged(g, worlds_view(final(region_access)@), final(inventory)@),
        converged(g, worlds_view(old(region_access)@), old(inventory)@) ==> !progress,
        runs_to(g, (worlds_view(old(region_access)@), old(inventory)@), (worlds_view(final(region_access)@), final(inventory)@)),
{
    let ghost ws0 = worlds_view(region_access@);
    let ghost inv0 = inventory@;
    proof {
        lemma_runs_to_refl(g, (ws0, inv0));
    }
    let mut progress = false;
    let mut w: usize = 0;
    while w < region_access.len()
        invariant
            g.wf(),
            worlds_view(region_access@).len() == ws0.len(),
            worlds_wf(worlds_view(region_access@), g.region_count()),
            worlds_le(ws0, worlds_view(region_access@)),
            g.inventory_fits(inventory@),
            inv0.le(inventory@),
            w <= region_access@.len(),
            progress ==> falses3(worlds_view(region_access@)) + inv_measure(inventory@) < falses3(ws0) + inv_measure(inv0),
            !progress ==> worlds_view(region_access@) == ws0 && inventory@ == inv0,
            !progress ==> forall|w2: int| 0 <= w2 < w ==> world_closed(g, #[trigger] worlds_view(region_access@)[w2], inventory@),
            converged(g, ws0, inv0) ==> !progress,
            runs_to(g, (ws0, inv0), (worlds_view(region_access@), inventory@)),
        decreases region_access@.len() - w,
    {
        let ghost ws1 = worlds_view(region_access@);
        let ghost inv1 = inventory@;
        assert(region_access@[w as int]@ == ws1[w as int]);
        let changed = explore_world(g, &mut region_access[w], inventory, Ghost(ws1), Ghost(w as int));
        proof {
            let m = region_access@[w as int]@;
            assert(worlds_view(region_access@) =~= ws1.update(w as int, m));
            lemma_runs_to_trans(g, (ws0, inv0), (ws1, inv1), (worlds_view(region_access@), inventory@));
            lemma_falses3_update(ws1, w as int, m);
            lemma_inv_le_trans(inv0, inv1, inventory@);
            assert forall|w2: int| 0 <= w2 < ws0.len() implies map_le(#[trigger] ws0[w2], worlds_view(region_access@)[w2]) by {
                if w2 == w {
                    assert forall|r2: int, x: GlobalState| 0 <= r2 < ws0[w2].len() && #[trigger] reach(ws0[w2], r2, x) implies reach(m, r2, x) by {
                        assert(reach(ws1[w2], r2, x));
                    }
                } else {
                    assert(worlds_view(region_access@)[w2] == ws1[w2]);
                }
            }
        }
        if changed {
            progress = true;
        }
        w += 1;
    }
    progress
}

/// Explores until a whole pass changes nothing. Every world's reachable states and the shared
/// inventory only grow, the result is a fixed point, and a fixed point is left as it is.
pub fn max_explore(g: &RegionGraph, region_access: &mut Vec<ReachabilityMap>, inventory: &mut Inventory)
    requires
        g.wf(),
        worlds_wf(worlds_view(old(region_access)@), g.region_count()),
        g.inventory_fits(old(inventory)@),
    ensures
        worlds_wf(worlds_view(final(region_access)@), g.region_count()),
        worlds_le(worlds_view(old(region_access)@), worlds_view(final(region_access)@)),
        g.inventory_fits(final(inventory)@),
        old(inventory)@.le(final(inventory)@),
        converged(g, worlds_view(final(region_access)@), final(inventory)@),
        converged(g, worlds_view(old(region_access)@), old(inventory)@) ==> worlds_view(
            final(region_access)@,
        ) == worlds_view(old(region_access)@) && final(inventory)@ == old(inventory)@,
        runs_to(g, (worlds_view(old(region_access)@), old(inventory)@), (worlds_view(final(region_access)@), final(inventory)@)),
{
    let ghost ws0 = worlds_view(region_access@);
    let ghost inv0 = inventory@;
    proof {
        lemma_runs_to_refl(g, (ws0, inv0));
    }
    let mut progress = true;
    while progress
        invariant
            g.wf(),
            worlds_wf(worlds_view(region_access@), g.region_count()),
            worlds_le(ws0, worlds_view(region_access@)),
            g.inventory_fits(inventory@),
            inv0.le(inventory@),
            !progress ==> converged(g, worlds_view(region_access@), inventory@),
            converged(g, ws0, inv0) ==> worlds_view(region_access@) == ws0 && inventory@ == inv0,
            runs_to(g, (ws0, inv0), (worlds_view(region_access@), inventory@)),
        decreases falses3(worlds_view(region_access@)) + inv_measure(inventory@) + if progress {
            1int
        } else {
            0int
        },
    {
        let ghost ws1 = worlds_view(region_access@);
        let ghost inv1 = inventory@;
        progress = explore_pass(g, region_access, inventory);
        proof {
            lemma_runs_to_trans(g, (ws0, inv0), (ws1, inv1), (worlds_view(region_access@), inventory@));
            lemma_inv_le_trans(inv0, inv1, inventory@);
            let ws2 = worlds_view(region_access@);
            assert forall|w: int| 0 <= w < ws0.len() implies map_le(#[trigger] ws0[w], ws2[w]) by {
                assert forall|r2: int, x: GlobalState| 0 <= r2 < ws0[w].len() && #[trigger] reach(ws0[w], r2, x) implies reach(ws2[w], r2, x) by {
                    assert(map_le(ws0[w], ws1[w]));
                    assert(map_le(ws1[w], ws2[w]));
                    assert(reach(ws1[w], r2, x));
                }
            }
        }
    }
}

} // verus!
