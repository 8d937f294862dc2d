use vstd::prelude::*;
use crate::access::{holds, Access};
use crate::common::Item;
use crate::inventory::InventoryModel;
use crate::region::{falses, lemma_falses_update};
use crate::state::{Age, GlobalState, TimeOfDay};

verus! {

/// A condition on the global state that logic files name directly.
#[derive(Clone, Copy, Debug, PartialEq, Eq, Structural)]
pub enum Condition {
    IsAdult,
    IsChild,
    AtDay,
    AtNight,
    AtDampeTime,
}

/// An access expression as written in a logic file, with its names resolved.
#[derive(Debug)]
pub enum LogicExpr {
    Bool(bool),
    And(Box<LogicExpr>, Box<LogicExpr>),
    Or(Box<LogicExpr>, Box<LogicExpr>),
    /// A string literal: a named event, by number.
    Event(usize),
    Condition(Condition),
    /// A logic helper, by number.
    Helper(usize),
    Item(Item),
    /// An item together with a required count.
    Count(Item, u64),
    /// Whether the wallet can hold the given price.
    CanPay(u64),
    /// A sub-expression whose satisfaction in the current region grants the given anonymous event.
    Here(usize, Box<LogicExpr>),
}

/// Why an access expression cannot be expanded.
#[derive(Clone, Copy, Debug, PartialEq, Eq, Structural)]
pub enum ExpandError {
    /// The item cannot stand alone in an access expression.
    UnsupportedItem(Item),
    /// The item cannot stand with a count in an access expression.
    UnsupportedCount(Item),
    /// No helper has this number.
    UndefinedHelper(usize),
    /// The helper refers to itself, directly or through other helpers.
    CyclicHelper(usize),
}

/// Whether an item may stand alone in an access expression.
pub open spec fn item_supported(item: Item) -> bool {
    match item {
        Item::Arrows
        | Item::Bombs
        | Item::DekuNuts
        | Item::DekuSeeds
        | Item::MagicRefills
        | Item::PieceOfHeart
        | Item::RecoveryHearts
        | Item::Wallet => false,
        _ => true,
    }
}

/// What naming an item in an access expression requires: some items need companions (ammunition,
/// magic, the ocarina for songs), and some can only be used at one age.
pub open spec fn item_meaning(item: Item, s: GlobalState, inv: InventoryModel) -> bool {
    match item {
        Item::BombBag => inv.has_item(Item::BombBag) && inv.has_item(Item::Bombs),
        Item::DinsFire => inv.has_item(Item::DinsFire) && inv.has_item(Item::MagicMeter) && inv.has_item(Item::MagicRefills),
        Item::MagicMeter => inv.has_item(Item::MagicMeter) && inv.has_item(Item::MagicRefills),
        Item::Slingshot => s.age == Age::Child && inv.has_item(Item::Slingshot) && inv.has_item(Item::DekuSeeds),
        Item::Boomerang
        | Item::Bugs
        | Item::DekuShield
        | Item::DekuSticks
        | Item::KokiriSword
        | Item::MagicBean => s.age == Age::Child && inv.has_item(item),
        Item::Cojiro
        | Item::Hookshot
        | Item::HoverBoots
        | Item::OddMushroom
        | Item::OddPotion
        | Item::PoachersSaw => s.age == Age::Adult && inv.has_item(item),
        Item::BoleroOfFire
        | Item::EponasSong
        | Item::MinuetOfForest
        | Item::NocturneOfShadow
        | Item::PreludeOfLight
        | Item::RequiemOfSpirit
        | Item::SariasSong
        | Item::SerenadeOfWater
        | Item::SongOfStorms
        | Item::SongOfTime
        | Item::SunsSong
        | Item::ZeldasLullaby => inv.has_item(Item::Ocarina) && inv.has_item(item),
        _ => inv.has_item(item),
    }
}

fn both(a: Access, b: Access) -> (r: Access)
    ensures
        forall|s: GlobalState, inv: InventoryModel| #[trigger] holds(r, s, inv) == (holds(a, s, inv) && holds(b, s, inv)),
{
    Access::And(Box::new(a), Box::new(b))
}

fn either(a: Access, b: Access) -> (r: Access)
    ensures
        forall|s: GlobalState, inv: InventoryModel| #[trigger] holds(r, s, inv) == (holds(a, s, inv) || holds(b, s, inv)),
{
    Access::Or(Box::new(a), Box::new(b))
}

fn all_of2(a: Item, b: Item) -> (r: Access)
    ensures
        forall|s: GlobalState, inv: InventoryModel| #[trigger] holds(r, s, inv) == (inv.has_item(a) && inv.has_item(b)),
{
    let mut group: Vec<Item> = Vec::new();
    group.push(a);
    group.push(b);
    let r = Access::AllOf(group);
    assert forall|s: GlobalState, inv: InventoryModel| #[trigger] holds(r, s, inv) == (inv.has_item(a) && inv.has_item(b)) by {
        if inv.has_item(a) && inv.has_item(b) {
            let items = group@;
            assert(inv.has_all(items));
        }
        if holds(r, s, inv) {
            let items = group@;
            assert(inv.has_all(items));
            assert(inv.has_item(items[0]));
            assert(inv.has_item(items[1]));
        }
    }
    r
}

fn all_of3(a: Item, b: Item, c: Item) -> (r: Access)
    ensures
        forall|s: GlobalState, inv: InventoryModel| #[trigger] holds(r, s, inv) == (inv.has_item(a) && inv.has_item(b) && inv.has_item(c)),
{
    let mut group: Vec<Item> = Vec::new();
    group.push(a);
    group.push(b);
    group.push(c);
    let r = Access::AllOf(group);
    assert forall|s: GlobalState, inv: InventoryModel| #[trigger] holds(r, s, inv) == (inv.has_item(a) && inv.has_item(b) && inv.has_item(c)) by {
        if inv.has_item(a) && inv.has_item(b) && inv.has_item(c) {
            let items = group@;
            assert(inv.has_all(items));
        }
        if holds(r, s, inv) {
            let items = group@;
            assert(inv.has_all(items));
            assert(inv.has_item(items[0]));
            assert(inv.has_item(items[1]));
            assert(inv.has_item(items[2]));
        }
    }
    r
}

fn child_with(a: Access) -> (r: Access)
    ensures
        forall|s: GlobalState, inv: InventoryModel| #[trigger] holds(r, s, inv) == (s.age == Age::Child && holds(a, s, inv)),
{
    both(Access::IsChild, a)
}

fn adult_with(a: Access) -> (r: Access)
    ensures
        forall|s: GlobalState, inv: InventoryModel| #[trigger] holds(r, s, inv) == (s.age == Age::Adult && holds(a, s, inv)),
{
    both(Access::IsAdult, a)
}

/// The predicate for naming `item` in an access expression.
pub fn item_access(item: Item) -> (r: Result<Access, ExpandError>)
    ensures
        match r {
            Ok(a) => item_supported(item) && forall|s: GlobalState, inv: InventoryModel| #[trigger] holds(a, s, inv) == item_meaning(item, s, inv),
            Err(e) => !item_supported(item) && e == ExpandError::UnsupportedItem(item),
        },
{
    let r = match item {
        Item::BombBag => all_of2(Item::BombBag, Item::Bombs),
        Item::DinsFire => all_of3(Item::DinsFire, Item::MagicMeter, Item::MagicRefills),
        Item::MagicMeter => all_of2(Item::MagicMeter, Item::MagicRefills),
        Item::Slingshot => child_with(all_of2(Item::Slingshot, Item::DekuSeeds)),
        Item::Bottle
        | Item::GoldSkulltulaToken
        | Item::Ocarina
        | Item::OcarinaAButton
        | Item::OcarinaCDownButton
        | Item::OcarinaCLeftButton
        | Item::OcarinaCRightButton
        | Item::OcarinaCUpButton
        | Item::Scale
        | Item::StoneOfAgony => Access::Item(item),
        Item::Boomerang
        | Item::Bugs
        | Item::DekuShield
        | Item::DekuSticks
        | Item::KokiriSword
        | Item::MagicBean => child_with(Access::Item(item)),
        Item::Cojiro
        | Item::Hookshot
        | Item::HoverBoots
        | Item::OddMushroom
        | Item::OddPotion
        | Item::PoachersSaw => adult_with(Access::Item(item)),
        Item::BoleroOfFire
        | Item::EponasSong
        | Item::MinuetOfForest
        | Item::NocturneOfShadow
        | Item::PreludeOfLight
        | Item::RequiemOfSpirit
        | Item::SariasSong
        | Item::SerenadeOfWater
        | Item::SongOfStorms
        | Item::SongOfTime
        | Item::SunsSong
        | Item::ZeldasLullaby => all_of2(Item::Ocarina, item),
        Item::Arrows
        | Item::Bombs
        | Item::DekuNuts
        | Item::DekuSeeds
        | Item::MagicRefills
        | Item::PieceOfHeart
        | Item::RecoveryHearts
        | Item::Wallet => return Err(ExpandError::UnsupportedItem(item)),
    };
    Ok(r)
}

/// The wallet tier a price needs: nothing for free, one more wallet upgrade per price bracket,
/// and nothing can pay a price above the largest wallet.
pub open spec fn pay_meaning(price: u64, inv: InventoryModel) -> bool {
    if price == 0 {
        true
    } else if price <= 99 {
        inv.count(Item::Wallet) >= 1
    } else if price <= 200 {
        inv.count(Item::Wallet) >= 2
    } else if price <= 500 {
        inv.count(Item::Wallet) >= 3
    } else if price <= 999 {
        inv.count(Item::Wallet) >= 4
    } else {
        false
    }
}

/// The predicate for paying `price`.
pub fn can_pay(price: u64) -> (r: Access)
    ensures
        forall|s: GlobalState, inv: InventoryModel| #[trigger] holds(r, s, inv) == pay_meaning(price, inv),
{
    if price == 0 {
        Access::Const(true)
    } else if price <= 99 {
        Access::Item(Item::Wallet)
    } else if price <= 200 {
        Access::ItemCount(Item::Wallet, 2)
    } else if price <= 500 {
        Access::ItemCount(Item::Wallet, 3)
    } else if price <= 999 {
        Access::ItemCount(Item::Wallet, 4)
    } else {
        Access::Const(false)
    }
}

/// Whether an item may stand with a count in an access expression.
pub open spec fn count_supported(item: Item) -> bool {
    item == Item::MagicBean || item == Item::Hookshot
}

/// What `(item, count)` requires: enough copies, at the age that can use them.
pub open spec fn count_meaning(item: Item, count: u64, s: GlobalState, inv: InventoryModel) -> bool {
    if item == Item::MagicBean {
        s.age == Age::Child && inv.count(item) >= count
    } else {
        s.age == Age::Adult && inv.count(item) >= count
    }
}

/// The predicate for `(item, count)`.
pub fn count_access(item: Item, count: u64) -> (r: Result<Access, ExpandError>)
    ensures
        match r {
            Ok(a) => count_supported(item) && forall|s: GlobalState, inv: InventoryModel| #[trigger] holds(a, s, inv) == count_meaning(item, count, s, inv),
            Err(e) => !count_supported(item) && e == ExpandError::UnsupportedCount(item),
        },
{
    match item {
        Item::MagicBean => Ok(child_with(Access::ItemCount(item, count))),
        Item::Hookshot => Ok(adult_with(Access::ItemCount(item, count))),
        _ => Err(ExpandError::UnsupportedCount(item)),
    }
}

pub open spec fn condition_meaning(c: Condition, s: GlobalState) -> bool {
    match c {
        Condition::IsAdult => s.age == Age::Adult,
        Condition::IsChild => s.age == Age::Child,
        Condition::AtDay => s.time_of_day.spec_is_day(),
        Condition::AtNight => !s.time_of_day.spec_is_day(),
        Condition::AtDampeTime => s.time_of_day == TimeOfDay::Dampe,
    }
}

fn condition_access(c: Condition) -> (r: Access)
    ensures
        forall|s: GlobalState, inv: InventoryModel| #[trigger] holds(r, s, inv) == condition_meaning(c, s),
{
    match c {
        Condition::IsAdult => Access::IsAdult,
        Condition::IsChild => Access::IsChild,
        Condition::AtDay => Access::AtDay,
        Condition::AtNight => Access::AtNight,
        Condition::AtDampeTime => Access::AtDampeTime,
    }
}

/// Expanding helper `h` while the helpers marked in `on_stack` are being expanded.
pub open spec fn helper_step(helpers: Seq<LogicExpr>, on_stack: Seq<bool>, h: int) -> bool {
    on_stack.len() == helpers.len() && 0 <= h < helpers.len() && !on_stack[h]
}

pub proof fn lemma_helper_step(on_stack: Seq<bool>, h: int)
    requires
        0 <= h < on_stack.len(),
        !on_stack[h],
    ensures
        falses(on_stack.update(h, true)) < falses(on_stack),
{
    lemma_falses_update(on_stack, h);
}

/// The first error met when expanding `e` depth first, left to right, or `None`.
pub open spec fn expand_error(helpers: Seq<LogicExpr>, e: LogicExpr, on_stack: Seq<bool>) -> Option<ExpandError>
    decreases falses(on_stack), e,
{
    match e {
        LogicExpr::And(l, r) | LogicExpr::Or(l, r) => match expand_error(helpers, *l, on_stack) {
            Some(err) => Some(err),
            None => expand_error(helpers, *r, on_stack),
        },
        LogicExpr::Item(item) => if item_supported(item) {
            None
        } else {
            Some(ExpandError::UnsupportedItem(item))
        },
        LogicExpr::Count(item, _) => if count_supported(item) {
            None
        } else {
            Some(ExpandError::UnsupportedCount(item))
        },
        LogicExpr::Here(_, inner) => expand_error(helpers, *inner, on_stack),
        LogicExpr::Helper(h) => if h >= helpers.len() {
            Some(ExpandError::UndefinedHelper(h))
        } else if on_stack.len() == helpers.len() && on_stack[h as int] {
            Some(ExpandError::CyclicHelper(h))
        } else if helper_step(helpers, on_stack, h as int) {
            proof {
                lemma_helper_step(on_stack, h as int);
            }
            expand_error(helpers, helpers[h as int], on_stack.update(h as int, true))
        } else {
            None
        },
        _ => None,
    }
}

/// What `e` requires of the global state and the inventory, with helpers inlined.
pub open spec fn meaning(helpers: Seq<LogicExpr>, e: LogicExpr, on_stack: Seq<bool>, s: GlobalState, inv: InventoryModel) -> bool
    decreases falses(on_stack), e,
{
    match e {
        LogicExpr::Bool(b) => b,
        LogicExpr::And(l, r) => meaning(helpers, *l, on_stack, s, inv) && meaning(helpers, *r, on_stack, s, inv),
        LogicExpr::Or(l, r) => meaning(helpers, *l, on_stack, s, inv) || meaning(helpers, *r, on_stack, s, inv),
        LogicExpr::Event(id) => inv.has_named(id as int),
        LogicExpr::Condition(c) => condition_meaning(c, s),
        LogicExpr::Item(item) => item_meaning(item, s, inv),
        LogicExpr::Count(item, count) => count_meaning(item, count, s, inv),
        LogicExpr::CanPay(price) => pay_meaning(price, inv),
        LogicExpr::Here(id, _) => inv.has_anonymous(id as int),
        LogicExpr::Helper(h) => if helper_step(helpers, on_stack, h as int) {
            proof {
                lemma_helper_step(on_stack, h as int);
            }
            meaning(helpers, helpers[h as int], on_stack.update(h as int, true), s, inv)
        } else {
            false
        },
    }
}

/// Expands `e` into a predicate, inlining helpers; `on_stack` marks the helpers being expanded.
fn expand(helpers: &Vec<LogicExpr>, e: &LogicExpr, on_stack: &mut Vec<bool>) -> (r: Result<Access, ExpandError>)
    requires
        old(on_stack)@.len() == helpers@.len(),
    ensures
        final(on_stack)@ == old(on_stack)@,
        match r {
            Ok(a) => expand_error(helpers@, *e, old(on_stack)@) == None::<ExpandError> && forall|s: GlobalState, inv: InventoryModel|
                #[trigger] holds(a, s, inv) == meaning(helpers@, *e, old(on_stack)@, s, inv),
            Err(err) => expand_error(helpers@, *e, old(on_stack)@) == Some(err),
        },
    decreases falses(old(on_stack)@), e,
{
    match e {
        LogicExpr::Bool(b) => Ok(Access::Const(*b)),
        LogicExpr::And(l, r) => {
            let left = match expand(helpers, l, on_stack) {
                Ok(a) => a,
                Err(err) => return Err(err),
            };
            let right = match expand(helpers, r, on_stack) {
                Ok(a) => a,
                Err(err) => return Err(err),
            };
            Ok(both(left, right))
        },
        LogicExpr::Or(l, r) => {
            let left = match expand(helpers, l, on_stack) {
                Ok(a) => a,
                Err(err) => return Err(err),
            };
            let right = match expand(helpers, r, on_stack) {
                Ok(a) => a,
                Err(err) => return Err(err),
            };
            Ok(either(left, right))
        },
        LogicExpr::Event(id) => Ok(Access::NamedEvent(*id)),
        LogicExpr::Condition(c) => Ok(condition_access(*c)),
        LogicExpr::Item(item) => item_access(*item),
        LogicExpr::Count(item, count) => count_access(*item, *count),
        LogicExpr::CanPay(price) => Ok(can_pay(*price)),
        LogicExpr::Here(id, inner) => {
            // the inner expression becomes the anonymous event's own predicate; here it is only checked
            match expand(helpers, inner, on_stack) {
                Ok(_) => Ok(Access::AnonymousEvent(*id)),
                Err(err) => Err(err),
            }
        },
        LogicExpr::Helper(h) => {
            let h = *h;
            if h >= helpers.len() {
                return Err(ExpandError::UndefinedHelper(h));
            }
            if on_stack[h] {
                return Err(ExpandError::CyclicHelper(h));
            }
            proof {
                lemma_helper_step(on_stack@, h as int);
            }
            on_stack.set(h, true);
            let r = expand(helpers, &helpers[h], on_stack);
            on_stack.set(h, false);
            proof {
                assert(on_stack@ =~= old(on_stack)@);
            }
            r
        },
    }
}

/// Expands an access expression into a predicate, inlining helpers. Fails on items that cannot
/// stand there, on undefined helpers, and on helpers that refer to themselves.
pub fn expand_access_expr(helpers: &Vec<LogicExpr>, e: &LogicExpr) -> (r: Result<Access, ExpandError>)
    ensures
        match r {
            Ok(a) => expand_error(helpers@, *e, Seq::new(helpers@.len(), |i: int| false)) == None::<ExpandError> && forall|s: GlobalState, inv: InventoryModel|
                #[trigger] holds(a, s, inv) == meaning(helpers@, *e, Seq::new(helpers@.len(), |i: int| false), s, inv),
            Err(err) => expand_error(helpers@, *e, Seq::new(helpers@.len(), |i: int| false)) == Some(err),
        },
{
    let mut on_stack: Vec<bool> = Vec::new();
    let mut i: usize = 0;
    while i < helpers.len()
        invariant
            i <= helpers@.len(),
            on_stack@.len() == i,
            forall|j: int| 0 <= j < i ==> !on_stack@[j],
        decreases helpers@.len() - i,
    {
        on_stack.push(false);
        i += 1;
    }
    assert(on_stack@ =~= Seq::new(helpers@.len(), |i: int| false));
    expand(helpers, e, &mut on_stack)
}

} // verus!
