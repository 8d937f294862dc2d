use vstd::prelude::*;
use crate::common::{Item, ITEM_COUNT};

verus! {

/// Something a region can grant: an item, or an event marker.
#[derive(Clone, Copy, Debug, PartialEq, Eq, Hash, Structural)]
pub enum Pickup {
    Item(Item),
    /// A flag visible to every predicate.
    NamedEvent(usize),
    /// A marker local to the region that defines it.
    AnonymousEvent(usize),
}

/// Mathematical content of an inventory.
pub ghost struct InventoryModel {
    /// Copies held of each item, by item index.
    pub counts: Seq<u64>,
    /// Named events held, by event number.
    pub named: Seq<bool>,
    /// Anonymous events held, by event number.
    pub anonymous: Seq<bool>,
}

impl InventoryModel {
    pub open spec fn wf(self) -> bool {
        self.counts.len() == ITEM_COUNT
    }

    pub open spec fn count(self, item: Item) -> int {
        self.counts[item.spec_index()] as int
    }

    pub open spec fn has_item(self, item: Item) -> bool {
        self.count(item) >= 1
    }

    /// Every item of `group` is held.
    pub open spec fn has_all(self, group: Seq<Item>) -> bool {
        forall|k: int| 0 <= k < group.len() ==> self.has_item(#[trigger] group[k])
    }

    pub open spec fn has_named(self, e: int) -> bool {
        0 <= e < self.named.len() && self.named[e]
    }

    pub open spec fn has_anonymous(self, e: int) -> bool {
        0 <= e < self.anonymous.len() && self.anonymous[e]
    }

    pub open spec fn holds_pickup(self, p: Pickup) -> bool {
        match p {
            Pickup::Item(item) => self.has_item(item),
            Pickup::NamedEvent(e) => self.has_named(e as int),
            Pickup::AnonymousEvent(e) => self.has_anonymous(e as int),
        }
    }

    /// Whether a pickup can be recorded in this inventory (events are numbered within bounds).
    pub open spec fn fits(self, p: Pickup) -> bool {
        match p {
            Pickup::Item(_) => true,
            Pickup::NamedEvent(e) => e < self.named.len(),
            Pickup::AnonymousEvent(e) => e < self.anonymous.len(),
        }
    }

    /// The inventory after recording one more copy of `p`.
    pub open spec fn collected(self, p: Pickup) -> InventoryModel {
        match p {
            Pickup::Item(item) => InventoryModel {
                counts: self.counts.update(item.spec_index(), (self.count(item) + 1) as u64),
                ..self
            },
            Pickup::NamedEvent(e) => InventoryModel { named: self.named.update(e as int, true), ..self },
            Pickup::AnonymousEvent(e) => InventoryModel {
                anonymous: self.anonymous.update(e as int, true),
                ..self
            },
        }
    }

    /// `self` holds at most what `other` holds.
    pub open spec fn le(self, other: InventoryModel) -> bool {
        &&& self.counts.len() == other.counts.len()
        &&& self.named.len() == other.named.len()
        &&& self.anonymous.len() == other.anonymous.len()
        &&& forall|i: int| 0 <= i < self.counts.len() ==> self.counts[i] <= other.counts[i]
        &&& forall|i: int| 0 <= i < self.named.len() && self.named[i] ==> other.named[i]
        &&& forall|i: int| 0 <= i < self.anonymous.len() && self.anonymous[i] ==> other.anonymous[i]
    }
}

/// Everything collected during one exploration run: item copies and events.
pub struct Inventory {
    counts: Vec<u64>,
    named_events: Vec<bool>,
    anonymous_events: Vec<bool>,
}

impl View for Inventory {
    type V = InventoryModel;

    closed spec fn view(&self) -> InventoryModel {
        InventoryModel {
            counts: self.counts@,
            named: self.named_events@,
            anonymous: self.anonymous_events@,
        }
    }
}

/// A vector of `n` copies of `v`.
fn filled<T: Copy>(n: usize, v: T) -> (r: Vec<T>)
    ensures
        r@.len() == n,
        forall|i: int| 0 <= i < n ==> r@[i] == v,
{
    let mut r: Vec<T> = Vec::new();
    let mut i: usize = 0;
    while i < n
        invariant
            i <= n,
            r@.len() == i,
            forall|j: int| 0 <= j < i ==> r@[j] == v,
        decreases n - i,
    {
        r.push(v);
        i += 1;
    }
    r
}

impl Inventory {
    /// What the player holds before finding anything: one wallet, and room for the given
    /// numbers of named and anonymous events.
    pub fn starting(named_event_count: usize, anonymous_event_count: usize) -> (r: Inventory)
        ensures
            r@.wf(),
            r@.named.len() == named_event_count,
            r@.anonymous.len() == anonymous_event_count,
            forall|item: Item| #[trigger] r@.count(item) == if item == Item::Wallet { 1int } else { 0 },
            forall|e: int| !(#[trigger] r@.has_named(e)),
            forall|e: int| !(#[trigger] r@.has_anonymous(e)),
    {
        let mut counts = filled(ITEM_COUNT, 0u64);
        counts.set(Item::Wallet.index(), 1);
        let r = Inventory {
            counts,
            named_events: filled(named_event_count, false),
            anonymous_events: filled(anonymous_event_count, false),
        };
        assert forall|item: Item| #[trigger] r@.count(item) == if item == Item::Wallet { 1int } else { 0 } by {
            if item != Item::Wallet {
                assert(item.spec_index() != Item::Wallet.spec_index());
            }
        }
        r
    }

    pub fn count(&self, item: Item) -> (r: u64)
        requires
            self@.wf(),
        ensures
            r as int == self@.count(item),
    {
        self.counts[item.index()]
    }

    /// Whether at least one copy of `item` is held.
    pub fn contains_item(&self, item: Item) -> (r: bool)
        requires
            self@.wf(),
        ensures
            r == self@.has_item(item),
    {
        self.counts[item.index()] >= 1
    }

    /// Whether at least `required` copies of `item` are held; zero copies are always held.
    pub fn contains_count(&self, item: Item, required: u64) -> (r: bool)
        requires
            self@.wf(),
        ensures
            r == (self@.count(item) >= required),
    {
        self.counts[item.index()] >= required
    }

    /// Whether every item of `group` is held.
    pub fn contains_all(&self, group: &Vec<Item>) -> (r: bool)
        requires
            self@.wf(),
        ensures
            r == self@.has_all(group@),
    {
        let mut k: usize = 0;
        while k < group.len()
            invariant
                self@.wf(),
                k <= group@.len(),
                forall|j: int| 0 <= j < k ==> self@.has_item(#[trigger] group@[j]),
            decreases group@.len() - k,
        {
            if !self.contains_item(group[k]) {
                return false;
            }
            k += 1;
        }
        true
    }

    pub fn contains_named(&self, e: usize) -> (r: bool)
        ensures
            r == self@.has_named(e as int),
    {
        e < self.named_events.len() && self.named_events[e]
    }

    pub fn contains_anonymous(&self, e: usize) -> (r: bool)
        ensures
            r == self@.has_anonymous(e as int),
    {
        e < self.anonymous_events.len() && self.anonymous_events[e]
    }

    pub fn holds(&self, p: Pickup) -> (r: bool)
        requires
            self@.wf(),
        ensures
            r == self@.holds_pickup(p),
    {
        match p {
            Pickup::Item(item) => self.contains_item(item),
            Pickup::NamedEvent(e) => self.contains_named(e),
            Pickup::AnonymousEvent(e) => self.contains_anonymous(e),
        }
    }

    /// Adds one copy of `item`.
    pub fn collect(&mut self, item: Item)
        requires
            old(self)@.wf(),
            old(self)@.count(item) < u64::MAX,
        ensures
            final(self)@ == old(self)@.collected(Pickup::Item(item)),
    {
        let i = item.index();
        let c = self.counts[i];
        self.counts.set(i, c + 1);
    }

    /// Records `p`: one more copy of an item, or the event as held.
    pub fn collect_pickup(&mut self, p: Pickup)
        requires
            old(self)@.wf(),
            old(self)@.fits(p),
            !old(self)@.holds_pickup(p),
        ensures
            final(self)@ == old(self)@.collected(p),
    {
        match p {
            Pickup::Item(item) => self.collect(item),
            Pickup::NamedEvent(e) => self.named_events.set(e, true),
            Pickup::AnonymousEvent(e) => self.anonymous_events.set(e, true),
        }
    }
}

} // verus!
