use riirando::access::{evaluate, Access};
use riirando::closure::closure_seed;
use riirando::common::{Item, Savewarp};
use riirando::helpers::{
    can_child_attack, can_cut_shrubs, can_dive, can_open_storm_grotto, can_plant_bean, has_explosives, standard_helpers,
    Longshot, CAN_CHILD_ATTACK, CAN_CUT_SHRUBS, CAN_PLANT_BEAN, HELPER_COUNT, LONGSHOT,
};
use riirando::inventory::{Inventory, Pickup};
use riirando::logic::{can_pay, count_access, expand_access_expr, item_access, Condition, ExpandError, LogicExpr};
use riirando::search::{age_time_allows, can_win};
use riirando::state::{all_states, Age, GlobalState, TimeOfDay};

fn child() -> GlobalState {
    GlobalState { age: Age::Child, time_of_day: TimeOfDay::Noon, savewarp: Savewarp::Overworld }
}

fn adult() -> GlobalState {
    GlobalState { age: Age::Adult, time_of_day: TimeOfDay::Midnight, savewarp: Savewarp::Overworld }
}

fn holding(items: &[Item]) -> Inventory {
    let mut inv = Inventory::starting(2, 2);
    for item in items {
        inv.collect(*item);
    }
    inv
}

#[test]
fn time_of_day_day_and_night() {
    assert!(TimeOfDay::Noon.is_day());
    assert!(!TimeOfDay::Noon.is_night());
    assert!(TimeOfDay::Dampe.is_night());
    assert!(TimeOfDay::Midnight.is_night());
    assert!(!TimeOfDay::Midnight.is_day());
}

#[test]
fn state_numbering_round_trips() {
    let all = all_states();
    assert_eq!(all.len(), 96);
    for (i, s) in all.iter().enumerate() {
        assert_eq!(s.index(), i);
        assert_eq!(GlobalState::at(i), *s);
    }
    assert_eq!(Age::Child.not(), Age::Adult);
}

#[test]
fn starting_inventory_holds_one_wallet() {
    let inv = Inventory::starting(1, 1);
    assert_eq!(inv.count(Item::Wallet), 1);
    assert!(inv.contains_item(Item::Wallet));
    assert!(!inv.contains_item(Item::KokiriSword));
    assert!(!inv.contains_named(0));
    assert!(!inv.contains_anonymous(0));
    assert!(!inv.contains_named(5));
}

#[test]
fn counts_and_groups() {
    let mut inv = holding(&[Item::Hookshot]);
    assert!(inv.contains_count(Item::Hookshot, 0));
    assert!(inv.contains_count(Item::Hookshot, 1));
    assert!(!inv.contains_count(Item::Hookshot, 2));
    inv.collect(Item::Hookshot);
    assert!(inv.contains_count(Item::Hookshot, 2));
    assert_eq!(inv.count(Item::Hookshot), 2);
    assert!(inv.contains_all(&vec![Item::Hookshot, Item::Wallet]));
    assert!(!inv.contains_all(&vec![Item::Hookshot, Item::Bombs]));
    assert!(inv.contains_all(&vec![]));
    inv.collect_pickup(Pickup::AnonymousEvent(1));
    assert!(inv.holds(Pickup::AnonymousEvent(1)));
    assert!(!inv.holds(Pickup::NamedEvent(1)));
}

#[test]
fn predicates_evaluate() {
    let inv = holding(&[Item::Slingshot]);
    let both = Access::And(Box::new(Access::IsChild), Box::new(Access::Item(Item::Slingshot)));
    assert!(evaluate(&both, &child(), &inv));
    assert!(!evaluate(&both, &adult(), &inv));
    let either = Access::Or(Box::new(Access::IsAdult), Box::new(Access::Const(false)));
    assert!(evaluate(&either, &adult(), &inv));
    assert!(!evaluate(&either, &child(), &inv));
    assert!(evaluate(&Access::AtDay, &child(), &inv));
    assert!(evaluate(&Access::AtNight, &adult(), &inv));
    assert!(!evaluate(&Access::AtDampeTime, &adult(), &inv));
    assert!(evaluate(&Access::SavewarpIs(Savewarp::Overworld), &child(), &inv));
    assert!(!evaluate(&Access::SavewarpIs(Savewarp::DekuTree), &child(), &inv));
    assert!(!evaluate(&Access::NamedEvent(0), &child(), &inv));
    assert!(evaluate(&Access::AllOf(vec![Item::Slingshot, Item::Wallet]), &child(), &inv));
}

#[test]
fn price_tiers() {
    let one = holding(&[]);
    let two = holding(&[Item::Wallet]);
    let four = holding(&[Item::Wallet, Item::Wallet, Item::Wallet]);
    let s = child();
    assert!(evaluate(&can_pay(0), &s, &Inventory::starting(0, 0)));
    assert!(evaluate(&can_pay(99), &s, &one));
    assert!(!evaluate(&can_pay(100), &s, &one));
    assert!(evaluate(&can_pay(200), &s, &two));
    assert!(!evaluate(&can_pay(201), &s, &two));
    assert!(evaluate(&can_pay(999), &s, &four));
    assert!(!evaluate(&can_pay(1000), &s, &four));
}

#[test]
fn items_in_access_expressions() {
    let s = child();
    let sling = item_access(Item::Slingshot).unwrap();
    assert!(!evaluate(&sling, &s, &holding(&[Item::Slingshot])));
    assert!(evaluate(&sling, &s, &holding(&[Item::Slingshot, Item::DekuSeeds])));
    assert!(!evaluate(&sling, &adult(), &holding(&[Item::Slingshot, Item::DekuSeeds])));
    let song = item_access(Item::SongOfStorms).unwrap();
    assert!(!evaluate(&song, &s, &holding(&[Item::SongOfStorms])));
    assert!(evaluate(&song, &s, &holding(&[Item::SongOfStorms, Item::Ocarina])));
    let hover = item_access(Item::HoverBoots).unwrap();
    assert!(evaluate(&hover, &adult(), &holding(&[Item::HoverBoots])));
    assert!(!evaluate(&hover, &s, &holding(&[Item::HoverBoots])));
    assert!(evaluate(&item_access(Item::Scale).unwrap(), &s, &holding(&[Item::Scale])));
    assert_eq!(item_access(Item::Wallet).unwrap_err(), ExpandError::UnsupportedItem(Item::Wallet));
    assert_eq!(count_access(Item::Bombs, 2).unwrap_err(), ExpandError::UnsupportedCount(Item::Bombs));
    let beans = count_access(Item::MagicBean, 2).unwrap();
    assert!(evaluate(&beans, &s, &holding(&[Item::MagicBean, Item::MagicBean])));
    assert!(!evaluate(&beans, &s, &holding(&[Item::MagicBean])));
}

#[test]
fn helpers_expand() {
    let helpers = standard_helpers();
    assert_eq!(helpers.len(), HELPER_COUNT);
    let attack = expand_access_expr(&helpers, &LogicExpr::Helper(CAN_CHILD_ATTACK)).unwrap();
    assert!(evaluate(&attack, &child(), &holding(&[Item::KokiriSword])));
    assert!(!evaluate(&attack, &adult(), &holding(&[Item::KokiriSword])));
    assert!(evaluate(&attack, &child(), &holding(&[Item::BombBag, Item::Bombs])));
    assert!(!evaluate(&attack, &child(), &holding(&[Item::BombBag])));
    let shrubs = expand_access_expr(&helpers, &LogicExpr::Helper(CAN_CUT_SHRUBS)).unwrap();
    assert!(evaluate(&shrubs, &adult(), &holding(&[])));
    assert!(!evaluate(&shrubs, &child(), &holding(&[])));
    let longshot = expand_access_expr(&helpers, &LogicExpr::Helper(LONGSHOT)).unwrap();
    assert!(evaluate(&longshot, &adult(), &holding(&[Item::Hookshot, Item::Hookshot])));
    assert!(!evaluate(&longshot, &adult(), &holding(&[Item::Hookshot])));
    let bean = expand_access_expr(&helpers, &LogicExpr::Helper(CAN_PLANT_BEAN)).unwrap();
    let mut beans = Vec::new();
    for _ in 0..10 {
        beans.push(Item::MagicBean);
    }
    assert!(evaluate(&bean, &child(), &holding(&beans)));
    beans.pop();
    assert!(!evaluate(&bean, &child(), &holding(&beans)));
    assert!(matches!(Longshot(), LogicExpr::Count(Item::Hookshot, 2)));
    assert!(matches!(can_dive(), LogicExpr::Item(Item::Scale)));
    assert!(matches!(has_explosives(), LogicExpr::Item(Item::BombBag)));
    assert!(matches!(can_open_storm_grotto(), LogicExpr::And(_, _)));
    assert!(matches!(can_child_attack(), LogicExpr::And(_, _)));
    assert!(matches!(can_cut_shrubs(), LogicExpr::Or(_, _)));
    assert!(matches!(can_plant_bean(), LogicExpr::And(_, _)));
}

#[test]
fn expansion_errors() {
    let cyclic = vec![LogicExpr::Helper(1), LogicExpr::Or(Box::new(LogicExpr::Bool(true)), Box::new(LogicExpr::Helper(0)))];
    assert_eq!(expand_access_expr(&cyclic, &LogicExpr::Helper(0)).unwrap_err(), ExpandError::CyclicHelper(0));
    assert_eq!(expand_access_expr(&cyclic, &LogicExpr::Helper(2)).unwrap_err(), ExpandError::UndefinedHelper(2));
    let bad = LogicExpr::And(Box::new(LogicExpr::Item(Item::Arrows)), Box::new(LogicExpr::Helper(9)));
    assert_eq!(expand_access_expr(&vec![], &bad).unwrap_err(), ExpandError::UnsupportedItem(Item::Arrows));
    // a helper used twice side by side is no cycle
    let twice = vec![LogicExpr::Condition(Condition::IsChild)];
    let e = LogicExpr::And(Box::new(LogicExpr::Helper(0)), Box::new(LogicExpr::Helper(0)));
    assert!(evaluate(&expand_access_expr(&twice, &e).unwrap(), &child(), &holding(&[])));
}

#[test]
fn events_and_here() {
    let e = LogicExpr::Or(Box::new(LogicExpr::Event(1)), Box::new(LogicExpr::Here(0, Box::new(LogicExpr::Bool(true)))));
    let a = expand_access_expr(&vec![], &e).unwrap();
    let mut inv = holding(&[]);
    assert!(!evaluate(&a, &child(), &inv));
    inv.collect_pickup(Pickup::AnonymousEvent(0));
    assert!(evaluate(&a, &child(), &inv));
    let mut inv = holding(&[]);
    inv.collect_pickup(Pickup::NamedEvent(1));
    assert!(evaluate(&a, &child(), &inv));
    let time = LogicExpr::Condition(Condition::AtDampeTime);
    let t = expand_access_expr(&vec![], &time).unwrap();
    assert!(evaluate(&t, &GlobalState { time_of_day: TimeOfDay::Dampe, ..child() }, &inv));
    assert!(!evaluate(&t, &child(), &inv));
    assert!(evaluate(&expand_access_expr(&vec![], &LogicExpr::CanPay(50)).unwrap(), &child(), &inv));
}

#[test]
fn closure_seed_keeps_mutually_reachable_states() {
    // 0 <-> 1, 1 -> 2, 2 -> 1: every state reaches 1 and 2; nothing reaches 0 from 2
    let direct = vec![vec![false, true, false], vec![true, false, true], vec![false, true, false]];
    assert_eq!(closure_seed(&direct), vec![true, true, true]);
    // 0 -> 1 only: 1 is reached from both, 0 only from itself
    let one_way = vec![vec![false, true], vec![false, false]];
    assert_eq!(closure_seed(&one_way), vec![false, true]);
    assert_eq!(closure_seed(&vec![vec![false, false], vec![false, false]]), vec![false, false]);
    assert_eq!(closure_seed(&vec![]), Vec::<bool>::new());
}

#[test]
fn rule_table_and_can_win() {
    assert!(age_time_allows(Age::Child, TimeOfDay::Noon, Age::Adult, TimeOfDay::Noon));
    assert!(age_time_allows(Age::Adult, TimeOfDay::Dampe, Age::Child, TimeOfDay::Dampe));
    assert!(age_time_allows(Age::Adult, TimeOfDay::Dampe, Age::Adult, TimeOfDay::Noon));
    assert!(!age_time_allows(Age::Child, TimeOfDay::Noon, Age::Adult, TimeOfDay::Midnight));
    assert!(can_win(&[()]));
    assert!(can_win(&[(), ()]));
    assert!(can_win(&[]));
}
