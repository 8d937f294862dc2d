use vstd::prelude::*;
use crate::closure::{closure_seed, in_seed, matrix_edges};
use crate::explore::{converged, entry_adds, max_explore, worlds_le, worlds_view, worlds_wf};
use crate::inventory::{Inventory, InventoryModel};
use crate::region::{map_wf, reach, ReachabilityMap, RegionGraph, ROOT};
use crate::state::{Age, GlobalState, TimeOfDay, STATE_COUNT};
use crate::common::Item;
use crate::fixpoint::{consistent, no_root_target, runs_to};

verus! {

/// Why a world cannot be beaten.
#[derive(Debug)]
pub enum SearchError {
    /// Some world has no access to the central hub as child, which is required to collect a key
    /// item. Carries that world's reachability map.
    InsufficientChildAccess(ReachabilityMap),
    /// Some world has no access to the final boss's region as adult.
    InsufficientAdultAccess,
}

/// Some state of the given age is reachable in `region`.
pub open spec fn reachable_as_spec(m: Seq<Seq<bool>>, region: int, age: Age) -> bool {
    exists|s: GlobalState| s.age == age && #[trigger] reach(m, region, s)
}

pub open spec fn child_access(g: &RegionGraph, m: Seq<Seq<bool>>) -> bool {
    reachable_as_spec(m, g.hub_region as int, Age::Child)
}

pub open spec fn adult_access(g: &RegionGraph, m: Seq<Seq<bool>>) -> bool {
    reachable_as_spec(m, g.final_region as int, Age::Adult)
}

pub open spec fn world_wins(g: &RegionGraph, m: Seq<Seq<bool>>) -> bool {
    child_access(g, m) && adult_access(g, m)
}

/// What the win check owes for the worlds `ws`: success when every world wins, otherwise the
/// failure of the first world that does not, checking child access before adult access.
pub open spec fn win_outcome(g: &RegionGraph, ws: Seq<Seq<Seq<bool>>>, r: Result<(), SearchError>) -> bool {
    match r {
        Ok(()) => forall|w: int| 0 <= w < ws.len() ==> #[trigger] world_wins(g, ws[w]),
        Err(SearchError::InsufficientChildAccess(m)) => exists|w: int|
            0 <= w < ws.len() && m@ == ws[w] && !child_access(g, #[trigger] ws[w]) && forall|v: int|
                0 <= v < w ==> #[trigger] world_wins(g, ws[v]),
        Err(SearchError::InsufficientAdultAccess) => exists|w: int|
            0 <= w < ws.len() && child_access(g, #[trigger] ws[w]) && !adult_access(g, ws[w]) && forall|v: int|
                0 <= v < w ==> #[trigger] world_wins(g, ws[v]),
    }
}

/// Whether some state of the given age is reachable in `region`.
pub fn reachable_as(m: &ReachabilityMap, region: usize, age: Age) -> (b: bool)
    requires
        map_wf(m@, m@.len() as int),
        region < m@.len(),
    ensures
        b == reachable_as_spec(m@, region as int, age),
{
    let mut i: usize = 0;
    while i < STATE_COUNT
        invariant
            map_wf(m@, m@.len() as int),
            region < m@.len(),
            i <= STATE_COUNT,
            forall|s: GlobalState| s.spec_index() < i && #[trigger] reach(m@, region as int, s) ==> s.age != age,
        decreases STATE_COUNT - i,
    {
        let s = GlobalState::at(i);
        if s.age == age && m.contains(region, s) {
            return true;
        }
        assert forall|x: GlobalState| x.spec_index() < i + 1 && #[trigger] reach(m@, region as int, x) implies x.age != age by {
            crate::state::lemma_state_index_injective(x, s);
        }
        i += 1;
    }
    assert forall|s: GlobalState| s.age == age implies !#[trigger] reach(m@, region as int, s) by {
        crate::state::lemma_state_index_bounds(s);
    }
    false
}

/// Checks each world, in order, for child access to the hub and adult access to the final boss.
pub fn check_win(g: &RegionGraph, region_access: Vec<ReachabilityMap>) -> (r: Result<(), SearchError>)
    requires
        g.wf(),
        worlds_wf(worlds_view(region_access@), g.region_count()),
    ensures
        win_outcome(g, worlds_view(region_access@), r),
{
    let ghost ws = worlds_view(region_access@);
    let mut worlds = region_access;
    let mut w: usize = 0;
    while w < worlds.len()
        invariant
            g.wf(),
            worlds_view(worlds@) == ws,
            ws == worlds_view(region_access@),
            worlds_wf(ws, g.region_count()),
            w <= ws.len(),
            forall|v: int| 0 <= v < w ==> #[trigger] world_wins(g, ws[v]),
        decreases ws.len() - w,
    {
        assert(worlds@[w as int]@ == ws[w as int]);
        if !reachable_as(&worlds[w], g.hub_region, Age::Child) {
            let m = worlds.remove(w);
            assert(m@ == ws[w as int]);
            assert(!child_access(g, ws[w as int]));
            return Err(SearchError::InsufficientChildAccess(m));
        }
        if !reachable_as(&worlds[w], g.final_region, Age::Adult) {
            assert(child_access(g, ws[w as int]) && !adult_access(g, ws[w as int]));
            return Err(SearchError::InsufficientAdultAccess);
        }
        w += 1;
    }
    Ok(())
}

/// `m` and `inv` are a fixed point of exploring this graph's single world from `ROOT` in state `from`.
pub open spec fn explored_from(g: &RegionGraph, from: GlobalState, m: Seq<Seq<bool>>, inv: InventoryModel) -> bool {
    &&& map_wf(m, g.region_count())
    &&& reach(m, ROOT as int, from)
    &&& g.inventory_fits(inv)
    &&& converged(g, seq![m], inv)
    &&& exists|start: Seq<Seq<bool>>, start_inv: InventoryModel|
        #[trigger] root_only(g, start, from) && #[trigger] is_starting(g, start_inv) && runs_to(g, (seq![start], start_inv), (seq![m], inv))
}

/// The inventory before anything is found: one wallet and no event.
pub open spec fn is_starting(g: &RegionGraph, inv: InventoryModel) -> bool {
    &&& g.inventory_fits(inv)
    &&& forall|item: Item| #[trigger] inv.count(item) == if item == Item::Wallet { 1int } else { 0 }
    &&& forall|e: int| !(#[trigger] inv.has_named(e))
    &&& forall|e: int| !(#[trigger] inv.has_anonymous(e))
}

/// Only `from` is reachable, and only at `ROOT`.
pub open spec fn root_only(g: &RegionGraph, m: Seq<Seq<bool>>, from: GlobalState) -> bool {
    &&& map_wf(m, g.region_count())
    &&& forall|r: int, x: GlobalState| 0 <= r < g.region_count() ==> #[trigger] reach(m, r, x) == (r == ROOT && x == from)
}

/// Row `a` of `direct` lists the states reached at `ROOT` by some fixed point of exploring from `a`.
pub open spec fn row_explored(g: &RegionGraph, direct: Seq<Vec<bool>>, a: GlobalState) -> bool {
    exists|m: Seq<Seq<bool>>, inv: InventoryModel| #[trigger] explored_from(g, a, m, inv) && forall|b: GlobalState|
        #[trigger] direct[a.spec_index()]@[b.spec_index()] == reach(m, ROOT as int, b)
}

/// Row `from` of `direct` lists the states that exploring from `ROOT` in state `from`, with
/// the starting inventory, reaches at `ROOT`.
pub open spec fn direct_explored(g: &RegionGraph, direct: Seq<Vec<bool>>) -> bool {
    &&& direct.len() == STATE_COUNT
    &&& forall|a: int| 0 <= a < STATE_COUNT ==> (#[trigger] direct[a])@.len() == STATE_COUNT
    &&& forall|a: GlobalState| #[trigger] row_explored(g, direct, a)
}

/// Direct reachability between global states: explores the graph from `ROOT` once per state,
/// holding only the starting inventory.
pub fn direct_by_exploration(g: &RegionGraph) -> (direct: Vec<Vec<bool>>)
    requires
        g.wf(),
    ensures
        direct_explored(g, direct@),
{
    let n = g.regions.len();
    let mut direct: Vec<Vec<bool>> = Vec::new();
    let mut i: usize = 0;
    while i < STATE_COUNT
        invariant
            g.wf(),
            n == g.region_count(),
            i <= STATE_COUNT,
            direct@.len() == i,
            forall|a: int| 0 <= a < i ==> (#[trigger] direct@[a])@.len() == STATE_COUNT,
            forall|a: GlobalState| a.spec_index() < i ==> #[trigger] row_explored(g, direct@, a),
        decreases STATE_COUNT - i,
    {
        let from = GlobalState::at(i);
        let mut start = ReachabilityMap::new(n);
        start.insert(ROOT, from);
        assert(root_only(g, start@, from));
        let mut worlds: Vec<ReachabilityMap> = Vec::new();
        worlds.push(start);
        let ghost ws0 = worlds_view(worlds@);
        assert(worlds_view(worlds@)[0] == start@);
        let mut inv = Inventory::starting(g.named_event_count, g.anonymous_event_count);
        let ghost inv0 = inv@;
        assert(is_starting(g, inv0));
        assert(ws0 =~= seq![start@]);
        max_explore(g, &mut worlds, &mut inv);
        let ghost ws = worlds_view(worlds@);
        assert(worlds_view(worlds@)[0] == worlds@[0]@);
        assert(map_wf(ws[0], n as int));
        assert(reach(ws[0], ROOT as int, from)) by {
            assert(worlds_le(ws0, ws));
            assert(reach(ws0[0], ROOT as int, from));
        }
        assert(seq![ws[0]] =~= ws);
        let mut row: Vec<bool> = Vec::new();
        let mut j: usize = 0;
        while j < STATE_COUNT
            invariant
                n == g.region_count(),
                n >= 1,
                ws.len() == 1,
                worlds@.len() == 1,
                worlds@[0]@ == ws[0],
                map_wf(ws[0], n as int),
                j <= STATE_COUNT,
                row@.len() == j,
                forall|b: int| 0 <= b < j ==> #[trigger] row@[b] == ws[0][ROOT as int][b],
            decreases STATE_COUNT - j,
        {
            let to = GlobalState::at(j);
            let b = worlds[0].contains(ROOT, to);
            row.push(b);
            j += 1;
        }
        let ghost before = direct@;
        direct.push(row);
        proof {
            assert(runs_to(g, (seq![start@], inv0), (seq![ws[0]], inv@)));
            assert(explored_from(g, from, ws[0], inv@));
            assert forall|a: GlobalState| a.spec_index() < i + 1 implies #[trigger] row_explored(g, direct@, a) by {
                crate::state::lemma_state_index_injective(a, from);
                if a.spec_index() == i {
                    assert forall|b: GlobalState| #[trigger] direct@[a.spec_index()]@[b.spec_index()] == reach(ws[0], ROOT as int, b) by {
                        crate::state::lemma_state_index_bounds(b);
                    }
                    assert(explored_from(g, a, ws[0], inv@));
                } else {
                    assert(direct@[a.spec_index()] == before[a.spec_index()]);
                    assert(row_explored(g, before, a));
                    let (m, inv) = choose|m: Seq<Seq<bool>>, inv: InventoryModel| #[trigger] explored_from(g, a, m, inv) && forall|b: GlobalState|
                        #[trigger] before[a.spec_index()]@[b.spec_index()] == reach(m, ROOT as int, b);
                    assert(explored_from(g, a, m, inv));
                }
            }
        }
        i += 1;
    }
    proof {
        assert forall|a: GlobalState| #[trigger] row_explored(g, direct@, a) by {
            crate::state::lemma_state_index_bounds(a);
        }
    }
    direct
}

/// `count` worlds in which exactly the seed states are reachable, at `ROOT` only.
pub fn seeded_worlds(region_count: usize, seed: &Vec<bool>, count: usize) -> (ws: Vec<ReachabilityMap>)
    requires
        region_count >= 1,
        seed@.len() == STATE_COUNT,
    ensures
        ws@.len() == count,
        worlds_wf(worlds_view(ws@), region_count as int),
        forall|w: int, r: int, s: GlobalState|
            0 <= w < count && 0 <= r < region_count ==> #[trigger] reach(worlds_view(ws@)[w], r, s) == (r == ROOT
                && seed@[s.spec_index()]),
{
    let mut ws: Vec<ReachabilityMap> = Vec::new();
    let mut w: usize = 0;
    while w < count
        invariant
            region_count >= 1,
            seed@.len() == STATE_COUNT,
            w <= count,
            ws@.len() == w,
            worlds_wf(worlds_view(ws@), region_count as int),
            forall|w2: int, r: int, s: GlobalState|
                0 <= w2 < w && 0 <= r < region_count ==> #[trigger] reach(worlds_view(ws@)[w2], r, s) == (r == ROOT
                    && seed@[s.spec_index()]),
        decreases count - w,
    {
        let mut m = ReachabilityMap::new(region_count);
        let mut i: usize = 0;
        while i < STATE_COUNT
            invariant
                region_count >= 1,
                seed@.len() == STATE_COUNT,
                i <= STATE_COUNT,
                map_wf(m@, region_count as int),
                forall|r: int, s: GlobalState|
                    0 <= r < region_count ==> #[trigger] reach(m@, r, s) == (r == ROOT && seed@[s.spec_index()]
                        && s.spec_index() < i),
            decreases STATE_COUNT - i,
        {
            let s = GlobalState::at(i);
            if seed[i] {
                m.insert(ROOT, s);
            }
            assert forall|r: int, x: GlobalState| 0 <= r < region_count implies #[trigger] reach(m@, r, x) == (r == ROOT && seed@[x.spec_index()]
                && x.spec_index() < i + 1) by {
                crate::state::lemma_state_index_injective(x, s);
            }
            i += 1;
        }
        assert forall|r: int, x: GlobalState| 0 <= r < region_count implies #[trigger] reach(m@, r, x) == (r == ROOT && seed@[x.spec_index()]) by {
            crate::state::lemma_state_index_bounds(x);
        }
        let ghost before = worlds_view(ws@);
        ws.push(m);
        assert(worlds_view(ws@) =~= before.push(m@));
        w += 1;
    }
    ws
}

/// The search of `check_reachability`: `direct` is the explored direct reachability, and `ws`
/// with `inv` is a fixed point of exploring `count` worlds that start with the seed of `direct`
/// reachable at `ROOT`.
pub open spec fn searched(g: &RegionGraph, count: int, direct: Seq<Vec<bool>>, ws: Seq<Seq<Seq<bool>>>, inv: InventoryModel) -> bool {
    &&& direct_explored(g, direct)
    &&& ws.len() == count
    &&& worlds_wf(ws, g.region_count())
    &&& g.inventory_fits(inv)
    &&& converged(g, ws, inv)
    &&& exists|start: Seq<Seq<Seq<bool>>>, start_inv: InventoryModel|
        #[trigger] seeded(g, start, count, direct) && #[trigger] is_starting(g, start_inv) && runs_to(g, (start, start_inv), (ws, inv))
}

/// `count` worlds in which exactly the seed of `direct` is reachable, at `ROOT` only.
pub open spec fn seeded(g: &RegionGraph, start: Seq<Seq<Seq<bool>>>, count: int, direct: Seq<Vec<bool>>) -> bool {
    &&& start.len() == count
    &&& worlds_wf(start, g.region_count())
    &&& forall|w: int, r: int, s: GlobalState|
        0 <= w < count && 0 <= r < g.region_count() ==> #[trigger] reach(start[w], r, s) == (r == ROOT
            && in_seed(matrix_edges(direct), STATE_COUNT as int, s.spec_index()))
}

/// Returns an error if some world cannot be beaten. Global states are only assumed reachable
/// when every other state reaches them, so that a player who reaches a state out of logic cannot
/// get stuck; to avoid a combinatorial explosion, each world must do so on its own.
pub fn check_reachability(g: &RegionGraph, worlds: &[()]) -> (r: Result<(), SearchError>)
    requires
        g.wf(),
    ensures
        exists|direct: Seq<Vec<bool>>, ws: Seq<Seq<Seq<bool>>>, inv: InventoryModel|
            #[trigger] searched(g, worlds@.len() as int, direct, ws, inv) && win_outcome(g, ws, r),
{
    let direct = direct_by_exploration(g);
    let seed = closure_seed(&direct);
    let mut region_access = seeded_worlds(g.regions.len(), &seed, worlds.len());
    let ghost ws0 = worlds_view(region_access@);
    let mut inventory = Inventory::starting(g.named_event_count, g.anonymous_event_count);
    let ghost inv0 = inventory@;
    max_explore(g, &mut region_access, &mut inventory);
    let ghost ws = worlds_view(region_access@);
    proof {
        assert forall|w: int, r: int, s: GlobalState|
            0 <= w < worlds@.len() && 0 <= r < g.region_count() implies #[trigger] reach(ws0[w], r, s) == (r == ROOT
                && in_seed(matrix_edges(direct@), STATE_COUNT as int, s.spec_index())) by {
            crate::state::lemma_state_index_bounds(s);
        }
        assert(seeded(g, ws0, worlds@.len() as int, direct@));
        assert(is_starting(g, inv0));
        assert(searched(g, worlds@.len() as int, direct@, ws, inventory@));
    }
    let r = check_win(g, region_access);
    r
}

/// Number of (age, time of day) states, numbered `age + 2 * time`.
pub const AGE_TIME_COUNT: usize = 6;

/// The fixed rule table: whether (age, time) state `b` is directly reachable from state `a`,
/// numbered `age + 2 * time`. Both ages reach every time of day, and the age can change at any time.
pub open spec fn age_time_rule(a: int, b: int) -> bool {
    a % 2 == b % 2 || a / 2 == b / 2
}

pub open spec fn rule_edges() -> Set<(int, int)> {
    Set::new(|p: (int, int)| 0 <= p.0 < AGE_TIME_COUNT && 0 <= p.1 < AGE_TIME_COUNT && age_time_rule(p.0, p.1))
}

/// Direct reachability between (age, time of day) states, before anything is shuffled.
pub fn age_time_allows(from_age: Age, from_time: TimeOfDay, to_age: Age, to_time: TimeOfDay) -> (r: bool)
    ensures
        r == (from_age == to_age || from_time == to_time),
{
    match (from_age, to_age) {
        // No items or entrances shuffled yet, so both ages have access to regions where time
        // passes, e.g. Hyrule Field.
        (Age::Child, Age::Child) | (Age::Adult, Age::Adult) => true,
        // No items or entrances shuffled yet, so the Door of Time can be opened as child, and
        // since the starting age is always child, a player who bypassed it as child can do so
        // again as adult.
        (Age::Child, Age::Adult) | (Age::Adult, Age::Child) => from_time == to_time,
    }
}

fn age_time_at(i: usize) -> (r: (Age, TimeOfDay))
    requires
        i < AGE_TIME_COUNT,
    ensures
        r.0.spec_index() == i % 2,
        r.1.spec_index() == i / 2,
{
    let age = if i % 2 == 0 {
        Age::Child
    } else {
        Age::Adult
    };
    let time = if i < 2 {
        TimeOfDay::Noon
    } else if i < 4 {
        TimeOfDay::Dampe
    } else {
        TimeOfDay::Midnight
    };
    (age, time)
}

/// Some (age, time) state of the given age parity is in the seed of the rule table.
pub open spec fn rule_seed_has(parity: int) -> bool {
    exists|i: int| 0 <= i < AGE_TIME_COUNT && i % 2 == parity && #[trigger] in_seed(rule_edges(), AGE_TIME_COUNT as int, i)
}

/// Whether every world can be beaten judging by the rule table alone: the states every state
/// reaches must include a child state and an adult state.
pub fn can_win(worlds: &[()]) -> (r: bool)
    ensures
        r == (worlds@.len() == 0 || (rule_seed_has(0) && rule_seed_has(1))),
{
    let mut direct: Vec<Vec<bool>> = Vec::new();
    let mut i: usize = 0;
    while i < AGE_TIME_COUNT
        invariant
            i <= AGE_TIME_COUNT,
            direct@.len() == i,
            forall|a: int| 0 <= a < i ==> (#[trigger] direct@[a])@.len() == AGE_TIME_COUNT,
            forall|a: int, b: int| 0 <= a < i && 0 <= b < AGE_TIME_COUNT ==> #[trigger] direct@[a]@[b] == age_time_rule(a, b),
        decreases AGE_TIME_COUNT - i,
    {
        let from = age_time_at(i);
        let mut row: Vec<bool> = Vec::new();
        let mut j: usize = 0;
        while j < AGE_TIME_COUNT
            invariant
                i < AGE_TIME_COUNT,
                from.0.spec_index() == i % 2,
                from.1.spec_index() == i / 2,
                j <= AGE_TIME_COUNT,
                row@.len() == j,
                forall|b: int| 0 <= b < j ==> #[trigger] row@[b] == age_time_rule(i as int, b),
            decreases AGE_TIME_COUNT - j,
        {
            let to = age_time_at(j);
            row.push(age_time_allows(from.0, from.1, to.0, to.1));
            j += 1;
        }
        let ghost before = direct@;
        direct.push(row);
        assert forall|a: int, b: int| 0 <= a < i + 1 && 0 <= b < AGE_TIME_COUNT implies #[trigger] direct@[a]@[b] == age_time_rule(a, b) by {
            if a < i {
                assert(direct@[a] == before[a]);
            }
        }
        i += 1;
    }
    assert(matrix_edges(direct@) =~= rule_edges());
    let seed = closure_seed(&direct);
    if worlds.len() == 0 {
        return true;
    }
    let mut child = false;
    let mut adult = false;
    let mut k: usize = 0;
    while k < AGE_TIME_COUNT
        invariant
            seed@.len() == AGE_TIME_COUNT,
            forall|t: int| 0 <= t < AGE_TIME_COUNT ==> #[trigger] seed@[t] == in_seed(rule_edges(), AGE_TIME_COUNT as int, t),
            k <= AGE_TIME_COUNT,
            child == exists|t: int| 0 <= t < k && t % 2 == 0 && #[trigger] in_seed(rule_edges(), AGE_TIME_COUNT as int, t),
            adult == exists|t: int| 0 <= t < k && t % 2 == 1 && #[trigger] in_seed(rule_edges(), AGE_TIME_COUNT as int, t),
        decreases AGE_TIME_COUNT - k,
    {
        if seed[k] {
            if k % 2 == 0 {
                child = true;
            } else {
                adult = true;
            }
        }
        k += 1;
    }
    child && adult
}

proof fn lemma_item_at(i: int)
    requires
        0 <= i < crate::common::ITEM_COUNT,
    ensures
        Item::spec_at(i).spec_index() == i,
{
}

proof fn lemma_starting_unique(g: &RegionGraph, a: InventoryModel, b: InventoryModel)
    requires
        is_starting(g, a),
        is_starting(g, b),
    ensures
        a == b,
{
    assert forall|c: int| 0 <= c < a.counts.len() implies a.counts[c] == b.counts[c] by {
        lemma_item_at(c);
        assert(a.count(Item::spec_at(c)) == b.count(Item::spec_at(c)));
    }
    assert forall|e: int| 0 <= e < a.named.len() implies a.named[e] == b.named[e] by {
        assert(!a.has_named(e) && !b.has_named(e));
    }
    assert forall|e: int| 0 <= e < a.anonymous.len() implies a.anonymous[e] == b.anonymous[e] by {
        assert(!a.has_anonymous(e) && !b.has_anonymous(e));
    }
    assert(a.counts =~= b.counts);
    assert(a.named =~= b.named);
    assert(a.anonymous =~= b.anonymous);
}

/// Two maps of the same shape that agree on every region and state are equal.
proof fn lemma_map_ext(g: &RegionGraph, a: Seq<Seq<bool>>, b: Seq<Seq<bool>>)
    requires
        map_wf(a, g.region_count()),
        map_wf(b, g.region_count()),
        forall|r: int, x: GlobalState| 0 <= r < g.region_count() ==> #[trigger] reach(a, r, x) == reach(b, r, x),
    ensures
        a == b,
{
    assert forall|r: int| 0 <= r < a.len() implies #[trigger] a[r] == b[r] by {
        assert forall|i: int| 0 <= i < a[r].len() implies a[r][i] == b[r][i] by {
            let x = crate::state::lemma_index_onto(i);
            assert(reach(a, r, x) == reach(b, r, x));
        }
        assert(a[r] =~= b[r]);
    }
    assert(a =~= b);
}

/// Only `ROOT` holds states, and no exit leads into it: nothing to be consistent about.
proof fn lemma_root_only_consistent(g: &RegionGraph, ws: Seq<Seq<Seq<bool>>>)
    requires
        g.wf(),
        no_root_target(g),
        forall|w: int, r: int, x: GlobalState|
            0 <= w < ws.len() && 0 <= r < g.region_count() && #[trigger] reach(ws[w], r, x) ==> r == ROOT,
    ensures
        consistent(g, ws),
{
    assert forall|w: int, t: int, s: GlobalState, r: int, x: GlobalState|
        0 <= w < ws.len() && 0 <= t < g.region_count() && g.is_target(t) && reach(ws[w], t, s) && 0 <= r
            < g.region_count() && #[trigger] entry_adds(g, t, s, r, x) implies #[trigger] reach(ws[w], r, x) by {
        let (rr, ee) = choose|rr: int, ee: int|
            0 <= rr < g.regions@.len() && 0 <= ee < g.regions@[rr].exits@.len()
                && #[trigger] g.regions@[rr].exits@[ee].target == t;
        assert(g.regions@[rr].exits@[ee].target != ROOT);
    }
}

/// When no exit leads into `ROOT`, the search of `check_reachability` is determined by the graph
/// and the number of worlds: any two searches agree on direct reachability, on the worlds they
/// end with and on the inventory, so its outcome is determined too.
pub proof fn lemma_search_determined(
    g: &RegionGraph,
    count: int,
    d1: Seq<Vec<bool>>,
    ws1: Seq<Seq<Seq<bool>>>,
    inv1: InventoryModel,
    d2: Seq<Vec<bool>>,
    ws2: Seq<Seq<Seq<bool>>>,
    inv2: InventoryModel,
)
    requires
        g.wf(),
        no_root_target(g),
        searched(g, count, d1, ws1, inv1),
        searched(g, count, d2, ws2, inv2),
    ensures
        matrix_edges(d1) == matrix_edges(d2),
        ws1 == ws2,
        inv1 == inv2,
{
    assert forall|a: GlobalState, b: GlobalState| #[trigger] d1[a.spec_index()]@[b.spec_index()] == d2[a.spec_index()]@[b.spec_index()] by {
        assert(row_explored(g, d1, a));
        assert(row_explored(g, d2, a));
        let (m1, i1) = choose|m: Seq<Seq<bool>>, inv: InventoryModel| #[trigger] explored_from(g, a, m, inv) && forall|b: GlobalState|
            #[trigger] d1[a.spec_index()]@[b.spec_index()] == reach(m, ROOT as int, b);
        let (m2, i2) = choose|m: Seq<Seq<bool>>, inv: InventoryModel| #[trigger] explored_from(g, a, m, inv) && forall|b: GlobalState|
            #[trigger] d2[a.spec_index()]@[b.spec_index()] == reach(m, ROOT as int, b);
        let (s1, si1) = choose|start: Seq<Seq<bool>>, start_inv: InventoryModel|
            #[trigger] root_only(g, start, a) && #[trigger] is_starting(g, start_inv) && runs_to(g, (seq![start], start_inv), (seq![m1], i1));
        let (s2, si2) = choose|start: Seq<Seq<bool>>, start_inv: InventoryModel|
            #[trigger] root_only(g, start, a) && #[trigger] is_starting(g, start_inv) && runs_to(g, (seq![start], start_inv), (seq![m2], i2));
        lemma_map_ext(g, s1, s2);
        lemma_starting_unique(g, si1, si2);
        let start = (seq![s1], si1);
        assert(worlds_wf(start.0, g.region_count()));
        lemma_root_only_consistent(g, start.0);
        let run2 = choose|run: Seq<crate::fixpoint::SearchState>| #[trigger] crate::fixpoint::is_run(g, run) && run[0] == start && run.last() == (seq![m2], i2);
        crate::fixpoint::lemma_explore_order_independent(g, start, (seq![m1], i1), run2);
        assert(seq![m1][0] == seq![m2][0]);
        assert(d1[a.spec_index()]@[b.spec_index()] == reach(m1, ROOT as int, b));
    }
    assert(matrix_edges(d1) =~= matrix_edges(d2)) by {
        assert forall|p: (int, int)| matrix_edges(d1).contains(p) == matrix_edges(d2).contains(p) by {
            if 0 <= p.0 < STATE_COUNT && 0 <= p.1 < STATE_COUNT {
                let a = crate::state::lemma_index_onto(p.0);
                let b = crate::state::lemma_index_onto(p.1);
                assert(d1[a.spec_index()]@[b.spec_index()] == d2[a.spec_index()]@[b.spec_index()]);
            }
        }
    }
    let (s1, si1) = choose|start: Seq<Seq<Seq<bool>>>, start_inv: InventoryModel|
        #[trigger] seeded(g, start, count, d1) && #[trigger] is_starting(g, start_inv) && runs_to(g, (start, start_inv), (ws1, inv1));
    let (s2, si2) = choose|start: Seq<Seq<Seq<bool>>>, start_inv: InventoryModel|
        #[trigger] seeded(g, start, count, d2) && #[trigger] is_starting(g, start_inv) && runs_to(g, (start, start_inv), (ws2, inv2));
    assert forall|w: int| 0 <= w < count implies #[trigger] s1[w] == s2[w] by {
        assert(map_wf(s1[w], g.region_count()));
        assert(map_wf(s2[w], g.region_count()));
        assert forall|r: int, x: GlobalState| 0 <= r < g.region_count() implies #[trigger] reach(s1[w], r, x) == reach(s2[w], r, x) by {
            assert(reach(s1[w], r, x) == (r == ROOT && in_seed(matrix_edges(d1), STATE_COUNT as int, x.spec_index())));
            assert(reach(s2[w], r, x) == (r == ROOT && in_seed(matrix_edges(d2), STATE_COUNT as int, x.spec_index())));
        }
        lemma_map_ext(g, s1[w], s2[w]);
    }
    assert(s1 =~= s2);
    lemma_starting_unique(g, si1, si2);
    lemma_root_only_consistent(g, s1);
    let run2 = choose|run: Seq<crate::fixpoint::SearchState>| #[trigger] crate::fixpoint::is_run(g, run) && run[0] == (s1, si1) && run.last() == (ws2, inv2);
    crate::fixpoint::lemma_explore_order_independent(g, (s1, si1), (ws1, inv1), run2);
}

} // verus!
