use riirando::access::{evaluate, Access};
use riirando::common::{Item, Savewarp, TimeOfDayBehavior};
use riirando::explore::{explore_pass, max_explore};
use riirando::inventory::{Inventory, Pickup};
use riirando::region::{savewarp_exits, Exit, ItemLocations, ReachabilityMap, RegionGraph, RegionInfo, ROOT};
use riirando::search::{check_reachability, check_win, SearchError};
use riirando::state::{Age, GlobalState, TimeOfDay};

fn region(savewarp: Savewarp, time_of_day: TimeOfDayBehavior, exits: Vec<Exit>) -> RegionInfo {
    RegionInfo { savewarp, time_of_day, items: Vec::new(), exits }
}

fn exit(target: usize, access: Access) -> Exit {
    Exit { target, access }
}

fn graph(regions: Vec<RegionInfo>, time_travel_region: usize, hub_region: usize, final_region: usize) -> RegionGraph {
    RegionGraph { regions, time_travel_region, hub_region, final_region, named_event_count: 0, anonymous_event_count: 0 }
}

fn state(age: Age, time_of_day: TimeOfDay, savewarp: Savewarp) -> GlobalState {
    GlobalState { age, time_of_day, savewarp }
}

fn seeded(region_count: usize, states: &[GlobalState]) -> Vec<ReachabilityMap> {
    let mut m = ReachabilityMap::new(region_count);
    for s in states {
        m.insert(ROOT, *s);
    }
    vec![m]
}

fn snapshot(ws: &Vec<ReachabilityMap>) -> Vec<Vec<Vec<GlobalState>>> {
    ws.iter().map(|m| (0..m.region_count()).map(|r| m.states(r)).collect()).collect()
}

fn two_region_graph() -> RegionGraph {
    graph(
        vec![
            region(Savewarp::Overworld, TimeOfDayBehavior::Unaltered, vec![exit(1, Access::Const(true))]),
            region(Savewarp::DekuTree, TimeOfDayBehavior::Unaltered, vec![exit(ROOT, Access::Const(true))]),
            region(Savewarp::Overworld, TimeOfDayBehavior::Unaltered, vec![]),
        ],
        2,
        1,
        1,
    )
}

#[test]
fn two_regions_one_pass() {
    let g = two_region_graph();
    let seed = state(Age::Child, TimeOfDay::Noon, Savewarp::Overworld);
    let mut ws = seeded(3, &[seed]);
    let mut inv = Inventory::starting(0, 0);
    let progress = explore_pass(&g, &mut ws, &mut inv);
    assert!(progress);
    assert!(ws[0].contains(1, seed));
    assert!(ws[0].contains(ROOT, state(Age::Child, TimeOfDay::Noon, Savewarp::DekuTree)));
    // the pass follows states as soon as they are marked, so the reloaded state reaches A too
    assert_eq!(ws[0].states(ROOT), vec![seed, state(Age::Child, TimeOfDay::Noon, Savewarp::DekuTree)]);
    assert_eq!(ws[0].states(1), vec![seed, state(Age::Child, TimeOfDay::Noon, Savewarp::DekuTree)]);
}

#[test]
fn adult_item_in_child_region_is_never_collected() {
    let mut a = region(Savewarp::Overworld, TimeOfDayBehavior::Unaltered, vec![exit(2, Access::Item(Item::KokiriSword))]);
    a.items.push(ItemLocations { pickup: Pickup::Item(Item::KokiriSword), accesses: vec![Access::IsAdult] });
    let g = graph(
        vec![
            region(Savewarp::Overworld, TimeOfDayBehavior::Unaltered, vec![exit(1, Access::IsChild)]),
            a,
            region(Savewarp::Overworld, TimeOfDayBehavior::Unaltered, vec![]),
            region(Savewarp::Overworld, TimeOfDayBehavior::Unaltered, vec![]),
        ],
        3,
        1,
        2,
    );
    let mut ws = seeded(4, &[state(Age::Child, TimeOfDay::Noon, Savewarp::Overworld)]);
    let mut inv = Inventory::starting(0, 0);
    max_explore(&g, &mut ws, &mut inv);
    assert!(!inv.contains_item(Item::KokiriSword));
    assert!(!ws[0].states(1).is_empty());
    assert!(ws[0].states(2).is_empty());
}

#[test]
fn time_passing_region_gets_every_time() {
    let g = graph(
        vec![
            region(Savewarp::Overworld, TimeOfDayBehavior::Unaltered, vec![exit(1, Access::AtDay)]),
            region(Savewarp::KfLinksHouse, TimeOfDayBehavior::Passes, vec![]),
            region(Savewarp::Overworld, TimeOfDayBehavior::Unaltered, vec![]),
        ],
        2,
        1,
        1,
    );
    let seed = state(Age::Child, TimeOfDay::Noon, Savewarp::Overworld);
    let mut ws = seeded(3, &[seed]);
    let mut inv = Inventory::starting(0, 0);
    max_explore(&g, &mut ws, &mut inv);
    let times = [TimeOfDay::Noon, TimeOfDay::Dampe, TimeOfDay::Midnight];
    // entering again with each reloaded state marks those too
    assert_eq!(ws[0].states(1).len(), 6);
    for t in times {
        assert!(ws[0].contains(1, state(Age::Child, t, Savewarp::Overworld)));
        assert!(ws[0].contains(ROOT, state(Age::Child, t, Savewarp::KfLinksHouse)));
    }
    assert_eq!(ws[0].states(ROOT).len(), 4);
}

/// Root, a time-travel region, a hub where time passes, and the final region behind `final_access`.
fn win_graph(hub_access: Access, final_access: Access) -> RegionGraph {
    graph(
        vec![
            region(Savewarp::Overworld, TimeOfDayBehavior::Unaltered, vec![exit(1, Access::Const(true)), exit(2, hub_access)]),
            region(Savewarp::Overworld, TimeOfDayBehavior::Unaltered, vec![exit(ROOT, Access::Const(true))]),
            region(Savewarp::Overworld, TimeOfDayBehavior::Passes, vec![exit(3, final_access)]),
            region(Savewarp::Overworld, TimeOfDayBehavior::Unaltered, vec![]),
        ],
        1,
        2,
        3,
    )
}

#[test]
fn final_region_unreachable_as_adult() {
    let g = win_graph(Access::Const(true), Access::IsChild);
    match check_reachability(&g, &[()]) {
        Err(SearchError::InsufficientAdultAccess) => {}
        other => panic!("unexpected result {other:?}"),
    }
}

#[test]
fn hub_unreachable_as_child() {
    let g = win_graph(Access::IsAdult, Access::Const(true));
    match check_reachability(&g, &[(), ()]) {
        Err(SearchError::InsufficientChildAccess(m)) => {
            assert!(!m.states(2).is_empty());
            assert!(m.states(2).iter().all(|s| s.age == Age::Adult));
        }
        other => panic!("unexpected result {other:?}"),
    }
}

#[test]
fn winnable_graph_passes() {
    let g = win_graph(Access::Const(true), Access::IsAdult);
    assert!(check_reachability(&g, &[()]).is_ok());
    assert!(check_reachability(&g, &[(), (), ()]).is_ok());
}

#[test]
fn no_world_always_passes() {
    let g = win_graph(Access::Const(false), Access::Const(false));
    assert!(check_reachability(&g, &[]).is_ok());
}

#[test]
fn check_win_reports_first_failing_world() {
    let g = win_graph(Access::Const(true), Access::Const(true));
    let child = state(Age::Child, TimeOfDay::Noon, Savewarp::Overworld);
    let adult = state(Age::Adult, TimeOfDay::Noon, Savewarp::Overworld);
    let mut good = ReachabilityMap::new(4);
    good.insert(2, child);
    good.insert(3, adult);
    let mut no_adult = ReachabilityMap::new(4);
    no_adult.insert(2, child);
    no_adult.insert(3, child);
    assert!(check_win(&g, vec![]).is_ok());
    match check_win(&g, vec![no_adult]) {
        Err(SearchError::InsufficientAdultAccess) => {}
        other => panic!("unexpected result {other:?}"),
    }
    let mut no_child = ReachabilityMap::new(4);
    no_child.insert(2, adult);
    no_child.insert(3, adult);
    match check_win(&g, vec![good, no_child]) {
        Err(SearchError::InsufficientChildAccess(m)) => assert_eq!(m.states(2), vec![adult]),
        other => panic!("unexpected result {other:?}"),
    }
}

#[test]
fn passes_only_grow() {
    let g = win_graph(Access::Const(true), Access::IsAdult);
    let mut ws = seeded(4, &[state(Age::Child, TimeOfDay::Midnight, Savewarp::Overworld)]);
    let mut inv = Inventory::starting(0, 0);
    let mut before = snapshot(&ws);
    for _ in 0..5 {
        explore_pass(&g, &mut ws, &mut inv);
        let after = snapshot(&ws);
        for (r, states) in before[0].iter().enumerate() {
            for s in states {
                assert!(after[0][r].contains(s));
            }
        }
        before = after;
    }
}

#[test]
fn exploring_a_fixed_point_changes_nothing() {
    let g = win_graph(Access::Const(true), Access::IsAdult);
    let mut ws = seeded(4, &[state(Age::Child, TimeOfDay::Noon, Savewarp::Overworld)]);
    let mut inv = Inventory::starting(0, 0);
    max_explore(&g, &mut ws, &mut inv);
    let first = snapshot(&ws);
    assert!(!explore_pass(&g, &mut ws, &mut inv));
    max_explore(&g, &mut ws, &mut inv);
    assert_eq!(snapshot(&ws), first);
}

#[test]
fn exit_order_does_not_change_the_fixed_point() {
    let forward = win_graph(Access::Const(true), Access::IsAdult);
    let mut backward = win_graph(Access::Const(true), Access::IsAdult);
    backward.regions[0].exits.reverse();
    let seed = [state(Age::Child, TimeOfDay::Dampe, Savewarp::Overworld)];
    let mut ws1 = seeded(4, &seed);
    let mut ws2 = seeded(4, &seed);
    let mut inv1 = Inventory::starting(0, 0);
    let mut inv2 = Inventory::starting(0, 0);
    max_explore(&forward, &mut ws1, &mut inv1);
    max_explore(&backward, &mut ws2, &mut inv2);
    assert_eq!(snapshot(&ws1), snapshot(&ws2));
}

#[test]
fn pickups_and_events_are_shared_and_gate_exits() {
    let mut a = region(Savewarp::Overworld, TimeOfDayBehavior::Unaltered, vec![exit(2, Access::NamedEvent(0))]);
    a.items.push(ItemLocations { pickup: Pickup::NamedEvent(0), accesses: vec![Access::Const(false), Access::IsChild] });
    a.items.push(ItemLocations { pickup: Pickup::Item(Item::Hookshot), accesses: vec![Access::Const(true)] });
    let b = region(Savewarp::Overworld, TimeOfDayBehavior::Unaltered, vec![exit(3, Access::ItemCount(Item::Hookshot, 2))]);
    let mut g = graph(
        vec![
            region(Savewarp::Overworld, TimeOfDayBehavior::Unaltered, vec![exit(1, Access::Const(true))]),
            a,
            b,
            region(Savewarp::Overworld, TimeOfDayBehavior::Unaltered, vec![]),
        ],
        3,
        1,
        2,
    );
    g.named_event_count = 1;
    let mut ws = seeded(4, &[state(Age::Child, TimeOfDay::Noon, Savewarp::Overworld)]);
    let mut inv = Inventory::starting(1, 0);
    max_explore(&g, &mut ws, &mut inv);
    assert!(inv.contains_named(0));
    assert_eq!(inv.count(Item::Hookshot), 1);
    assert!(!ws[0].states(2).is_empty());
    assert!(ws[0].states(3).is_empty());
    assert!(!evaluate(&Access::ItemCount(Item::Hookshot, 2), &state(Age::Adult, TimeOfDay::Noon, Savewarp::Overworld), &inv));
}

#[test]
fn time_travel_region_flips_age() {
    let g = win_graph(Access::Const(false), Access::Const(false));
    let seed = state(Age::Child, TimeOfDay::Noon, Savewarp::ShadowTemple);
    let mut ws = seeded(4, &[seed]);
    let mut inv = Inventory::starting(0, 0);
    max_explore(&g, &mut ws, &mut inv);
    assert!(ws[0].contains(1, state(Age::Adult, TimeOfDay::Noon, Savewarp::ShadowTemple)));
    assert!(ws[0].contains(ROOT, state(Age::Adult, TimeOfDay::Noon, Savewarp::Overworld)));
    assert!(!ws[0].contains(ROOT, state(Age::Adult, TimeOfDay::Dampe, Savewarp::Overworld)));
}

#[test]
fn ganons_castle_grounds_reload_at_dampe_time() {
    let g = graph(
        vec![
            region(Savewarp::Overworld, TimeOfDayBehavior::Unaltered, vec![exit(1, Access::Const(true))]),
            region(Savewarp::GanonsTower, TimeOfDayBehavior::OutsideGanonsCastle, vec![]),
            region(Savewarp::Overworld, TimeOfDayBehavior::Unaltered, vec![]),
        ],
        2,
        1,
        1,
    );
    let mut ws = seeded(3, &[state(Age::Adult, TimeOfDay::Noon, Savewarp::Overworld)]);
    let mut inv = Inventory::starting(0, 0);
    max_explore(&g, &mut ws, &mut inv);
    assert_eq!(ws[0].states(1).len(), 6);
    assert!(ws[0].contains(ROOT, state(Age::Adult, TimeOfDay::Dampe, Savewarp::GanonsTower)));
    assert!(!ws[0].contains(ROOT, state(Age::Adult, TimeOfDay::Noon, Savewarp::GanonsTower)));
    assert_eq!(ws[0].states(ROOT).len(), 2);
}

#[test]
fn graph_well_formedness() {
    assert!(two_region_graph().is_well_formed());
    let mut bad_exit = two_region_graph();
    bad_exit.regions[1].exits.push(exit(7, Access::Const(true)));
    assert!(!bad_exit.is_well_formed());
    let mut bad_event = two_region_graph();
    bad_event.regions[0].items.push(ItemLocations { pickup: Pickup::NamedEvent(0), accesses: vec![] });
    assert!(!bad_event.is_well_formed());
    bad_event.named_event_count = 1;
    assert!(bad_event.is_well_formed());
    let mut bad_hub = two_region_graph();
    bad_hub.hub_region = 3;
    assert!(!bad_hub.is_well_formed());
    assert!(!graph(vec![], 0, 0, 0).is_well_formed());
}

#[test]
fn savewarp_exits_follow_the_last_savewarp() {
    let mut targets = vec![None; 16];
    targets[Savewarp::DekuTree.index()] = Some(3);
    targets[Savewarp::KfLinksHouse.index()] = Some(5);
    let exits = savewarp_exits(&targets);
    assert_eq!(exits.len(), 2);
    assert_eq!(exits[0].target, 3);
    assert!(matches!(exits[0].access, Access::SavewarpIs(Savewarp::DekuTree)));
    assert_eq!(exits[1].target, 5);
    assert!(matches!(exits[1].access, Access::SavewarpIs(Savewarp::KfLinksHouse)));
    assert!(savewarp_exits(&vec![None; 16]).is_empty());
}
