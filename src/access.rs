use vstd::prelude::*;
use crate::common::{Item, Savewarp};
use crate::inventory::{Inventory, InventoryModel};
use crate::state::{Age, GlobalState, TimeOfDay};

verus! {

/// A boolean expression over the global state and the inventory that gates an exit or a pickup.
#[derive(Debug)]
pub enum Access {
    Const(bool),
    And(Box<Access>, Box<Access>),
    Or(Box<Access>, Box<Access>),
    /// A named event is held.
    NamedEvent(usize),
    /// An anonymous event is held.
    AnonymousEvent(usize),
    /// At least one copy of the item is held.
    Item(Item),
    /// At least the given number of copies of the item is held.
    ItemCount(Item, u64),
    /// Every item of the group is held.
    AllOf(Vec<Item>),
    IsChild,
    IsAdult,
    AtDay,
    AtNight,
    AtDampeTime,
    /// The last savewarp is the given one.
    SavewarpIs(Savewarp),
}

/// Whether `a` is satisfied in state `s` with inventory `inv`.
pub open spec fn holds(a: Access, s: GlobalState, inv: InventoryModel) -> bool
    decreases a,
{
    match a {
        Access::Const(b) => b,
        Access::And(l, r) => holds(*l, s, inv) && holds(*r, s, inv),
        Access::Or(l, r) => holds(*l, s, inv) || holds(*r, s, inv),
        Access::NamedEvent(e) => inv.has_named(e as int),
        Access::AnonymousEvent(e) => inv.has_anonymous(e as int),
        Access::Item(item) => inv.has_item(item),
        Access::ItemCount(item, n) => inv.count(item) >= n,
        Access::AllOf(group) => inv.has_all(group@),
        Access::IsChild => s.age == Age::Child,
        Access::IsAdult => s.age == Age::Adult,
        Access::AtDay => s.time_of_day.spec_is_day(),
        Access::AtNight => !s.time_of_day.spec_is_day(),
        Access::AtDampeTime => s.time_of_day == TimeOfDay::Dampe,
        Access::SavewarpIs(w) => s.savewarp == w,
    }
}

/// Evaluates an access predicate. Both operands of `And` and `Or` are evaluated.
pub fn evaluate(a: &Access, s: &GlobalState, inv: &Inventory) -> (r: bool)
    requires
        inv@.wf(),
    ensures
        r == holds(*a, *s, inv@),
    decreases a,
{
    match a {
        Access::Const(b) => *b,
        Access::And(l, r) => {
            let x = evaluate(l, s, inv);
            let y = evaluate(r, s, inv);
            x && y
        },
        Access::Or(l, r) => {
            let x = evaluate(l, s, inv);
            let y = evaluate(r, s, inv);
            x || y
        },
        Access::NamedEvent(e) => inv.contains_named(*e),
        Access::AnonymousEvent(e) => inv.contains_anonymous(*e),
        Access::Item(item) => inv.contains_item(*item),
        Access::ItemCount(item, n) => inv.contains_count(*item, *n),
        Access::AllOf(group) => inv.contains_all(group),
        Access::IsChild => s.age == Age::Child,
        Access::IsAdult => s.age == Age::Adult,
        Access::AtDay => s.time_of_day.is_day(),
        Access::AtNight => s.time_of_day.is_night(),
        Access::AtDampeTime => s.time_of_day == TimeOfDay::Dampe,
        Access::SavewarpIs(w) => s.savewarp == *w,
    }
}

/// A predicate that holds with some inventory still holds with any inventory holding at least as much.
pub proof fn lemma_holds_monotone(a: Access, s: GlobalState, inv: InventoryModel, more: InventoryModel)
    requires
        inv.wf(),
        inv.le(more),
        holds(a, s, inv),
    ensures
        holds(a, s, more),
    decreases a,
{
    match a {
        Access::And(l, r) => {
            lemma_holds_monotone(*l, s, inv, more);
            lemma_holds_monotone(*r, s, inv, more);
        },
        Access::Or(l, r) => {
            if holds(*l, s, inv) {
                lemma_holds_monotone(*l, s, inv, more);
            } else {
                lemma_holds_monotone(*r, s, inv, more);
            }
        },
        Access::Item(item) => {
            assert(inv.counts[item.spec_index()] <= more.counts[item.spec_index()]);
        },
        Access::ItemCount(item, n) => {
            assert(inv.counts[item.spec_index()] <= more.counts[item.spec_index()]);
        },
        Access::AllOf(group) => {
            let items = group@;
            assert forall|k: int| 0 <= k < items.len() implies more.has_item(#[trigger] items[k]) by {
                assert(inv.has_item(items[k]));
                assert(inv.counts[items[k].spec_index()] <= more.counts[items[k].spec_index()]);
            }
        },
        _ => {},
    }
}

} // verus!
