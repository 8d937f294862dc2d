use vstd::prelude::*;
use crate::access::Access;
use crate::common::{Savewarp, TimeOfDayBehavior, SAVEWARP_COUNT};
use crate::inventory::{InventoryModel, Pickup};
use crate::state::{GlobalState, STATE_COUNT};

verus! {

/// The region every search starts from, and that a save-and-reload returns to.
pub const ROOT: usize = 0;

/// One obtainable pickup of a region with the predicates of its locations; any one grants it.
#[derive(Debug)]
pub struct ItemLocations {
    pub pickup: Pickup,
    pub accesses: Vec<Access>,
}

/// An exit to another region, gated by a predicate.
#[derive(Debug)]
pub struct Exit {
    pub target: usize,
    pub access: Access,
}

/// Everything logic knows about one region.
#[derive(Debug)]
pub struct RegionInfo {
    pub savewarp: Savewarp,
    pub time_of_day: TimeOfDayBehavior,
    pub items: Vec<ItemLocations>,
    pub exits: Vec<Exit>,
}

/// The static region graph: regions by number, `ROOT` first, and the regions that the rules
/// single out.
#[derive(Debug)]
pub struct RegionGraph {
    pub regions: Vec<RegionInfo>,
    /// The one region whose checkpoint can be bypassed to travel through time.
    pub time_travel_region: usize,
    /// The central hub, which must be reachable as child.
    pub hub_region: usize,
    /// The final boss's region, which must be reachable as adult.
    pub final_region: usize,
    pub named_event_count: usize,
    pub anonymous_event_count: usize,
}

impl RegionGraph {
    pub open spec fn region_count(&self) -> int {
        self.regions@.len() as int
    }

    pub open spec fn pickup_fits(&self, p: Pickup) -> bool {
        match p {
            Pickup::Item(_) => true,
            Pickup::NamedEvent(e) => e < self.named_event_count,
            Pickup::AnonymousEvent(e) => e < self.anonymous_event_count,
        }
    }

    /// Region numbers are in range and events are numbered below their counts.
    pub open spec fn wf(&self) -> bool {
        &&& self.regions@.len() >= 1
        &&& self.time_travel_region < self.regions@.len()
        &&& self.hub_region < self.regions@.len()
        &&& self.final_region < self.regions@.len()
        &&& forall|r: int, e: int|
            0 <= r < self.regions@.len() && 0 <= e < self.regions@[r].exits@.len()
                ==> #[trigger] self.regions@[r].exits@[e].target < self.regions@.len()
        &&& forall|r: int, k: int|
            0 <= r < self.regions@.len() && 0 <= k < self.regions@[r].items@.len()
                ==> self.pickup_fits(#[trigger] self.regions@[r].items@[k].pickup)
    }

    /// An inventory sized for this graph's events.
    pub open spec fn inventory_fits(&self, inv: InventoryModel) -> bool {
        &&& inv.wf()
        &&& inv.named.len() == self.named_event_count
        &&& inv.anonymous.len() == self.anonymous_event_count
    }

    /// Whether some exit leads into region `t`.
    pub open spec fn is_target(&self, t: int) -> bool {
        exists|r: int, e: int|
            0 <= r < self.regions@.len() && 0 <= e < self.regions@[r].exits@.len()
                && #[trigger] self.regions@[r].exits@[e].target == t
    }
}

impl RegionGraph {
    /// Whether region numbers are in range and events are numbered below their counts.
    pub fn is_well_formed(&self) -> (r: bool)
        ensures
            r == self.wf(),
    {
        let n = self.regions.len();
        if n < 1 || self.time_travel_region >= n || self.hub_region >= n || self.final_region >= n {
            return false;
        }
        let mut i: usize = 0;
        while i < n
            invariant
                n == self.regions@.len(),
                i <= n,
                forall|r: int, e: int|
                    0 <= r < i && 0 <= e < self.regions@[r].exits@.len() ==> #[trigger] self.regions@[r].exits@[e].target < n,
                forall|r: int, k: int|
                    0 <= r < i && 0 <= k < self.regions@[r].items@.len() ==> self.pickup_fits(#[trigger] self.regions@[r].items@[k].pickup),
            decreases n - i,
        {
            let region = &self.regions[i];
            let mut e: usize = 0;
            while e < region.exits.len()
                invariant
                    region == self.regions@[i as int],
                    n == self.regions@.len(),
                    i < n,
                    e <= region.exits@.len(),
                    forall|e2: int| 0 <= e2 < e ==> #[trigger] region.exits@[e2].target < n,
                decreases region.exits@.len() - e,
            {
                if region.exits[e].target >= n {
                    return false;
                }
                e += 1;
            }
            let mut k: usize = 0;
            while k < region.items.len()
                invariant
                    n == self.regions@.len(),
                    i < n,
                    region == self.regions@[i as int],
                    k <= region.items@.len(),
                    forall|k2: int| 0 <= k2 < k ==> self.pickup_fits(#[trigger] region.items@[k2].pickup),
                decreases region.items@.len() - k,
            {
                let fits = match region.items[k].pickup {
                    Pickup::Item(_) => true,
                    Pickup::NamedEvent(ev) => ev < self.named_event_count,
                    Pickup::AnonymousEvent(ev) => ev < self.anonymous_event_count,
                };
                if !fits {
                    assert(!self.pickup_fits(self.regions@[i as int].items@[k as int].pickup));
                    return false;
                }
                k += 1;
            }
            i += 1;
        }
        true
    }
}

/// `e` is taken when the last savewarp is one of the first `below` savewarps, and leads to
/// that savewarp's region.
pub open spec fn is_savewarp_exit(e: Exit, targets: Seq<Option<usize>>, below: int) -> bool {
    match e.access {
        Access::SavewarpIs(w) => w.spec_index() < below && targets[w.spec_index()] == Some(e.target),
        _ => false,
    }
}

/// The exits that a save-and-reload offers from `ROOT`: one to the region of each savewarp that
/// has one (`targets` is indexed by savewarp), taken when the last savewarp is that savewarp.
pub fn savewarp_exits(targets: &Vec<Option<usize>>) -> (exits: Vec<Exit>)
    requires
        targets@.len() == SAVEWARP_COUNT,
    ensures
        forall|k: int| 0 <= k < exits@.len() ==> is_savewarp_exit(#[trigger] exits@[k], targets@, SAVEWARP_COUNT as int),
        forall|w: Savewarp| #[trigger] targets@[w.spec_index()] is Some ==> exists|k: int|
            0 <= k < exits@.len() && #[trigger] exits@[k].access == Access::SavewarpIs(w),
{
    let mut exits: Vec<Exit> = Vec::new();
    let mut i: usize = 0;
    while i < SAVEWARP_COUNT
        invariant
            targets@.len() == SAVEWARP_COUNT,
            i <= SAVEWARP_COUNT,
            forall|k: int| 0 <= k < exits@.len() ==> is_savewarp_exit(#[trigger] exits@[k], targets@, i as int),
            forall|w: Savewarp| w.spec_index() < i && #[trigger] targets@[w.spec_index()] is Some ==> exists|k: int|
                0 <= k < exits@.len() && #[trigger] exits@[k].access == Access::SavewarpIs(w),
        decreases SAVEWARP_COUNT - i,
    {
        let savewarp = Savewarp::at(i);
        if let Some(target) = targets[i] {
            let ghost before = exits@;
            exits.push(Exit { target, access: Access::SavewarpIs(savewarp) });
            assert forall|w: Savewarp| w.spec_index() < i + 1 && #[trigger] targets@[w.spec_index()] is Some implies exists|k: int|
                0 <= k < exits@.len() && #[trigger] exits@[k].access == Access::SavewarpIs(w) by {
                if w.spec_index() == i {
                    assert(w == savewarp);
                    assert(exits@[exits@.len() - 1].access == Access::SavewarpIs(w));
                } else {
                    let k = choose|k: int| 0 <= k < before.len() && #[trigger] before[k].access == Access::SavewarpIs(w);
                    assert(exits@[k] == before[k]);
                }
            }
        } else {
            assert forall|w: Savewarp| w.spec_index() < i + 1 && #[trigger] targets@[w.spec_index()] is Some implies exists|k: int|
                0 <= k < exits@.len() && #[trigger] exits@[k].access == Access::SavewarpIs(w) by {
                if w.spec_index() == i {
                    assert(w == savewarp);
                }
            }
        }
        i += 1;
    }
    exits
}

/// Whether `s` is reachable in region `r` of map `m`.
pub open spec fn reach(m: Seq<Seq<bool>>, r: int, s: GlobalState) -> bool {
    m[r][s.spec_index()]
}

/// A map with `n` regions, each with one flag per global state.
pub open spec fn map_wf(m: Seq<Seq<bool>>, n: int) -> bool {
    &&& m.len() == n
    &&& forall|r: int| 0 <= r < n ==> (#[trigger] m[r]).len() == STATE_COUNT
}

/// Number of flags that are not set.
pub open spec fn falses(row: Seq<bool>) -> nat
    decreases row.len(),
{
    if row.len() == 0 {
        0
    } else {
        falses(row.drop_last()) + if row.last() {
            0nat
        } else {
            1nat
        }
    }
}

pub open spec fn falses2(m: Seq<Seq<bool>>) -> nat
    decreases m.len(),
{
    if m.len() == 0 {
        0
    } else {
        falses2(m.drop_last()) + falses(m.last())
    }
}

pub proof fn lemma_falses_update(row: Seq<bool>, i: int)
    requires
        0 <= i < row.len(),
    ensures
        falses(row.update(i, true)) == falses(row) - if row[i] {
            0int
        } else {
            1int
        },
    decreases row.len(),
{
    let u = row.update(i, true);
    if i == row.len() - 1 {
        assert(u.drop_last() =~= row.drop_last());
    } else {
        assert(u.drop_last() =~= row.drop_last().update(i, true));
        lemma_falses_update(row.drop_last(), i);
    }
}

pub proof fn lemma_falses2_update(m: Seq<Seq<bool>>, r: int, row: Seq<bool>)
    requires
        0 <= r < m.len(),
    ensures
        falses2(m.update(r, row)) == falses2(m) - falses(m[r]) + falses(row),
    decreases m.len(),
{
    let u = m.update(r, row);
    if r == m.len() - 1 {
        assert(u.drop_last() =~= m.drop_last());
    } else {
        assert(u.drop_last() =~= m.drop_last().update(r, row));
        lemma_falses2_update(m.drop_last(), r, row);
    }
}

/// For each region of one world, the set of global states known reachable there.
#[derive(Debug)]
pub struct ReachabilityMap {
    rows: Vec<Vec<bool>>,
}

impl View for ReachabilityMap {
    type V = Seq<Seq<bool>>;

    closed spec fn view(&self) -> Seq<Seq<bool>> {
        self.rows@.map_values(|row: Vec<bool>| row@)
    }
}

impl ReachabilityMap {
    /// A map over `region_count` regions with nothing reachable.
    pub fn new(region_count: usize) -> (r: ReachabilityMap)
        ensures
            map_wf(r@, region_count as int),
            forall|reg: int, s: GlobalState| 0 <= reg < region_count ==> !reach(r@, reg, s),
    {
        let mut rows: Vec<Vec<bool>> = Vec::new();
        let mut i: usize = 0;
        while i < region_count
            invariant
                i <= region_count,
                rows@.len() == i,
                forall|j: int| 0 <= j < i ==> (#[trigger] rows@[j])@.len() == STATE_COUNT,
                forall|j: int, k: int| 0 <= j < i && 0 <= k < STATE_COUNT ==> !(#[trigger] rows@[j]@[k]),
            decreases region_count - i,
        {
            let mut row: Vec<bool> = Vec::new();
            let mut k: usize = 0;
            while k < STATE_COUNT
                invariant
                    k <= STATE_COUNT,
                    row@.len() == k,
                    forall|j: int| 0 <= j < k ==> !row@[j],
                decreases STATE_COUNT - k,
            {
                row.push(false);
                k += 1;
            }
            rows.push(row);
            i += 1;
        }
        let r = ReachabilityMap { rows };
        assert forall|reg: int, s: GlobalState| 0 <= reg < region_count implies !reach(r@, reg, s) by {
            assert(r@[reg] == rows@[reg]@);
        }
        r
    }

    pub fn region_count(&self) -> (r: usize)
        ensures
            r == self@.len(),
    {
        self.rows.len()
    }

    /// Whether `s` is marked reachable in region `r`.
    pub fn contains(&self, r: usize, s: GlobalState) -> (b: bool)
        requires
            map_wf(self@, self@.len() as int),
            r < self@.len(),
        ensures
            b == reach(self@, r as int, s),
    {
        assert(self@[r as int] == self.rows@[r as int]@);
        self.rows[r][s.index()]
    }

    /// Marks `s` reachable in region `r`; returns whether it was new.
    pub fn insert(&mut self, r: usize, s: GlobalState) -> (added: bool)
        requires
            map_wf(old(self)@, old(self)@.len() as int),
            r < old(self)@.len(),
        ensures
            final(self)@ == old(self)@.update(
                r as int,
                old(self)@[r as int].update(s.spec_index(), true),
            ),
            map_wf(final(self)@, old(self)@.len() as int),
            added == !reach(old(self)@, r as int, s),
            forall|r2: int, x: GlobalState|
                0 <= r2 < old(self)@.len() ==> (#[trigger] reach(final(self)@, r2, x) == (reach(
                    old(self)@,
                    r2,
                    x,
                ) || (r2 == r && x == s))),
            falses2(final(self)@) == falses2(old(self)@) - if added {
                1int
            } else {
                0int
            },
    {
        let ghost before = self@;
        let i = s.index();
        assert(self@[r as int] == self.rows@[r as int]@);
        let was = self.rows[r][i];
        self.rows[r].set(i, true);
        assert(self@ =~= before.update(r as int, before[r as int].update(i as int, true)));
        assert forall|r2: int, x: GlobalState|
            0 <= r2 < before.len() implies #[trigger] reach(self@, r2, x) == (reach(before, r2, x) || (r2
                == r && x == s)) by {
            crate::state::lemma_state_index_injective(x, s);
            crate::state::lemma_state_index_bounds(x);
        }
        proof {
            lemma_falses_update(before[r as int], i as int);
            lemma_falses2_update(before, r as int, before[r as int].update(i as int, true));
        }
        !was
    }

    /// The states marked reachable in region `r`, in index order.
    pub fn states(&self, r: usize) -> (v: Vec<GlobalState>)
        requires
            map_wf(self@, self@.len() as int),
            r < self@.len(),
        ensures
            forall|s: GlobalState| v@.contains(s) <==> reach(self@, r as int, s),
    {
        let mut v: Vec<GlobalState> = Vec::new();
        let mut i: usize = 0;
        while i < STATE_COUNT
            invariant
                map_wf(self@, self@.len() as int),
                r < self@.len(),
                i <= STATE_COUNT,
                forall|s: GlobalState| v@.contains(s) <==> (reach(self@, r as int, s) && s.spec_index() < i),
            decreases STATE_COUNT - i,
        {
            let s = GlobalState::at(i);
            let ghost before = v@;
            if self.contains(r, s) {
                v.push(s);
                assert forall|x: GlobalState| v@.contains(x) <==> (before.contains(x) || x == s) by {
                    if v@.contains(x) && x != s {
                        let k = choose|k: int| 0 <= k < v@.len() && v@[k] == x;
                        assert(before[k] == x);
                    }
                    if before.contains(x) {
                        let k = choose|k: int| 0 <= k < before.len() && before[k] == x;
                        assert(v@[k] == x);
                    }
                    if x == s {
                        assert(v@[v@.len() - 1] == x);
                    }
                }
            }
            assert forall|x: GlobalState| v@.contains(x) <==> (reach(self@, r as int, x) && x.spec_index() < i + 1) by {
                crate::state::lemma_state_index_injective(x, s);
                assert(before.contains(x) <==> (reach(self@, r as int, x) && x.spec_index() < i));
                if x.spec_index() == i {
                    assert(x == s);
                }
            }
            i += 1;
        }
        v
    }
}

} // verus!
