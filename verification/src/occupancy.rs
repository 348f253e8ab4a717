//! Users, history, and price of every routing resource of one class.

use std::sync::Arc;

use vstd::prelude::*;

use crate::cost::{cached_congestion_cost, negotiated_price};
use crate::model::{PipId, WireId};
use crate::ordered::{OrderedKey, OrderedMap, OrderedSet};
use crate::route::NetRoute;

verus! {

/// A routing resource with a dense index.
pub trait ResourceId: OrderedKey {
    /// Index of the resource.
    fn index(self) -> (result: usize)
        ensures
            result == self.rank(),
    ;
}

impl ResourceId for WireId {
    fn index(self) -> (result: usize) {
        self.0
    }
}

impl ResourceId for PipId {
    fn index(self) -> (result: usize) {
        self.0
    }
}

/// Indices of the resources that a table names.
pub open spec fn indices<K: ResourceId>(table: OrderedMap<K, u32>) -> Set<int> {
    Set::new(|r: int| exists|k: K| #[trigger] table@.contains_key(k) && k.rank() == r)
}

/// Wires of a route slot.
pub open spec fn slot_wires(slot: Option<Arc<NetRoute>>) -> Set<int> {
    match slot {
        Some(route) => indices(route.wire_refs),
        None => Set::empty(),
    }
}

/// PIPs of a route slot.
pub open spec fn slot_pips(slot: Option<Arc<NetRoute>>) -> Set<int> {
    match slot {
        Some(route) => indices(route.pip_refs),
        None => Set::empty(),
    }
}

/// Wires of every slot.
pub open spec fn wire_sets(routes: Seq<Option<Arc<NetRoute>>>) -> Seq<Set<int>> {
    routes.map_values(|slot: Option<Arc<NetRoute>>| slot_wires(slot))
}

/// PIPs of every slot.
pub open spec fn pip_sets(routes: Seq<Option<Arc<NetRoute>>>) -> Seq<Set<int>> {
    routes.map_values(|slot: Option<Arc<NetRoute>>| slot_pips(slot))
}

/// One or zero.
pub open spec fn as_count(condition: bool) -> int {
    if condition {
        1
    } else {
        0
    }
}

/// Number of sets that hold the resource.
pub open spec fn users(sets: Seq<Set<int>>, resource: int) -> int
    decreases sets.len(),
{
    if sets.len() == 0 {
        0
    } else {
        users(sets.drop_last(), resource) + as_count(sets.last().contains(resource))
    }
}

/// Replacing one set changes the users by that set alone.
pub proof fn lemma_users_update(sets: Seq<Set<int>>, index: int, set: Set<int>, resource: int)
    requires
        0 <= index < sets.len(),
    ensures
        users(sets.update(index, set), resource) + as_count(sets[index].contains(resource))
            == users(sets, resource) + as_count(set.contains(resource)),
    decreases sets.len(),
{
    let changed = sets.update(index, set);
    if index < sets.len() - 1 {
        lemma_users_update(sets.drop_last(), index, set, resource);
        assert(changed.drop_last() =~= sets.drop_last().update(index, set));
        assert(changed.last() == sets.last());
    } else {
        assert(changed.drop_last() =~= sets.drop_last());
    }
}

/// A resource has no more users than there are sets, and no fewer than none.
pub proof fn lemma_users_range(sets: Seq<Set<int>>, resource: int)
    ensures
        0 <= users(sets, resource) <= sets.len(),
    decreases sets.len(),
{
    if sets.len() > 0 {
        lemma_users_range(sets.drop_last(), resource);
    }
}

/// A resource that some set holds has a user.
pub proof fn lemma_users_positive(sets: Seq<Set<int>>, index: int, resource: int)
    requires
        0 <= index < sets.len(),
        sets[index].contains(resource),
    ensures
        users(sets, resource) >= 1,
    decreases sets.len(),
{
    lemma_users_range(sets.drop_last(), resource);
    if index < sets.len() - 1 {
        lemma_users_positive(sets.drop_last(), index, resource);
    }
}

/// Empty sets hold no resource.
pub proof fn lemma_users_of_nothing(sets: Seq<Set<int>>, resource: int)
    requires
        forall|i: int| 0 <= i < sets.len() ==> #[trigger] sets[i] == Set::<int>::empty(),
    ensures
        users(sets, resource) == 0,
    decreases sets.len(),
{
    if sets.len() > 0 {
        assert(sets[sets.len() - 1] == Set::<int>::empty());
        assert forall|i: int| 0 <= i < sets.drop_last().len() implies #[trigger] sets.drop_last()[i]
            == Set::<int>::empty() by {
            assert(sets[i] == Set::<int>::empty());
        }
        lemma_users_of_nothing(sets.drop_last(), resource);
    }
}

/// Adds one user to a resource, and lists the resource if it had none.
pub fn increment_occupancy(occupancy: &mut Vec<u16>, touched: &mut Vec<usize>, index: usize)
    requires
        index < old(occupancy)@.len(),
        old(occupancy)@[index as int] < u16::MAX,
    ensures
        final(occupancy)@ == old(occupancy)@.update(
            index as int,
            (old(occupancy)@[index as int] + 1) as u16,
        ),
        final(touched)@ == if old(occupancy)@[index as int] == 0 {
            old(touched)@.push(index)
        } else {
            old(touched)@
        },
{
    let used: u16 = occupancy[index];
    if used == 0 {
        touched.push(index);
    }
    occupancy.set(index, used + 1);
}

/// Notes whether a resource has more users than it can carry.
pub fn track_entry(tracker: &mut OrderedSet<usize>, used: u16, capacity: u16, index: usize)
    requires
        old(tracker).wf(),
    ensures
        final(tracker).wf(),
        final(tracker)@ == if used > capacity {
            old(tracker)@.insert(index)
        } else {
            old(tracker)@.remove(index)
        },
{
    if used > capacity {
        tracker.insert(index);
    } else {
        tracker.remove(index);
    }
}

/// Greatest history that one iteration can add.
pub const HISTORY_STEP: u32 = 0xffff;

/// Users, history, and price of every resource of one class.
#[derive(Clone, Debug)]
pub struct ResourceTable {
    /// Nets that each resource can carry.
    pub capacities: Vec<u16>,
    /// Nets that use each resource.
    pub occupancy: Vec<u16>,
    /// Accumulated overuse of each resource in the current trial.
    pub history: Vec<u32>,
    /// Negotiated price of one more user of each resource.
    pub congestion: Vec<u32>,
    /// Every resource with a user, a history, or a price.
    pub touched: Vec<usize>,
}

impl ResourceTable {
    /// The resource has no user, no history, and no price.
    pub open spec fn blank(&self, resource: int) -> bool {
        &&& self.occupancy@[resource] == 0
        &&& self.history@[resource] == 0
        &&& self.congestion@[resource] == 0
    }

    /// The resource has no user, no history, and no price, or it is listed.
    pub open spec fn listed(&self, resource: int) -> bool {
        self.touched@.contains(resource as usize) || self.blank(resource)
    }

    /// The tables have one length, and every resource in use is listed.
    pub open spec fn wf(&self, count: int) -> bool {
        &&& self.capacities@.len() == count
        &&& self.occupancy@.len() == count
        &&& self.history@.len() == count
        &&& self.congestion@.len() == count
        &&& count <= usize::MAX
        &&& forall|i: int| 0 <= i < self.touched@.len() ==> (#[trigger] self.touched@[i]) < count
        &&& forall|r: int| 0 <= r < count ==> #[trigger] self.listed(r)
    }

    /// The occupancy is the number of sets that hold each resource.
    pub open spec fn counts(&self, sets: Seq<Set<int>>) -> bool {
        forall|r: int|
            0 <= r < self.occupancy@.len() ==> #[trigger] self.occupancy@[r] == users(sets, r)
    }

    /// No resource has a history above the bound.
    pub open spec fn history_at_most(&self, bound: int) -> bool {
        forall|r: int| 0 <= r < self.history@.len() ==> #[trigger] self.history@[r] <= bound
    }

    /// The set holds exactly the resources above capacity.
    pub open spec fn tracks(&self, overused: &OrderedSet<usize>) -> bool {
        &&& overused.wf()
        &&& forall|r: usize| #[trigger]
            overused@.contains(r) <==> r < self.occupancy@.len() && self.occupancy@[r as int]
                > self.capacities@[r as int]
    }

    /// A table without users.
    pub fn new(capacities: Vec<u16>) -> (result: Self)
        ensures
            result.wf(capacities@.len() as int),
            result.capacities == capacities,
            result.touched@.len() == 0,
            forall|r: int|
                0 <= r < capacities@.len() ==> #[trigger] result.blank(r),
    {
        let count: usize = capacities.len();
        ResourceTable {
            capacities,
            occupancy: vec![0u16; count],
            history: vec![0u32; count],
            congestion: vec![0u32; count],
            touched: Vec::new(),
        }
    }

    /// Forgets every user, history, and price.
    pub fn reset(&mut self)
        requires
            old(self).wf(old(self).capacities@.len() as int),
        ensures
            final(self).wf(old(self).capacities@.len() as int),
            final(self).capacities == old(self).capacities,
            forall|r: int|
                0 <= r < final(self).capacities@.len() ==> #[trigger] final(self).blank(r),
    {
        let ghost count = self.capacities@.len() as int;
        let ghost listed = self.touched@;
        let mut index: usize = 0;
        proof {
            assert forall|r: int| 0 <= r < count && !listed.contains(r as usize) implies
            #[trigger] self.blank(r) by {
                assert(self.listed(r));
            }
        }
        while index < self.touched.len()
            invariant
                index <= self.touched@.len(),
                self.touched@ == listed,
                count == self.capacities@.len(),
                self.capacities == old(self).capacities,
                self.occupancy@.len() == count,
                self.history@.len() == count,
                self.congestion@.len() == count,
                forall|i: int| 0 <= i < listed.len() ==> (#[trigger] listed[i]) < count,
                forall|r: int|
                    0 <= r < count && !listed.contains(r as usize) ==> #[trigger] self.blank(r),
                forall|i: int| 0 <= i < index ==> self.blank((#[trigger] listed[i]) as int),
            decreases self.touched@.len() - index,
        {
            let resource: usize = self.touched[index];
            proof {
                assert(listed[index as int] < count);
            }
            let ghost earlier = *self;
            self.occupancy.set(resource, 0);
            self.history.set(resource, 0);
            self.congestion.set(resource, 0);
            proof {
                assert forall|r: int| 0 <= r < count && !listed.contains(r as usize) implies
                #[trigger] self.blank(r) by {
                    assert(earlier.blank(r));
                }
                assert forall|i: int| 0 <= i < index + 1 implies self.blank(
                    (#[trigger] listed[i]) as int,
                ) by {
                    if listed[i] != resource {
                        assert(earlier.blank(listed[i] as int));
                    }
                }
            }
            index = index + 1;
        }
        let ghost swept = *self;
        self.touched.clear();
        proof {
            assert(self.capacities.len() == count);
            assert forall|r: int| 0 <= r < count implies #[trigger] self.blank(r) by {
                assert(!listed.contains(r as usize) ==> swept.blank(r));
                if listed.contains(r as usize) {
                    let i = listed.index_of(r as usize);
                    assert(listed[i] == r);
                }
            }
            assert forall|r: int| 0 <= r < count implies #[trigger] self.listed(r) by {
                assert(self.blank(r));
            }
        }
    }

    /// Forgets every history.
    pub fn clear_history(&mut self)
        requires
            old(self).wf(old(self).capacities@.len() as int),
        ensures
            final(self).wf(old(self).capacities@.len() as int),
            final(self).capacities == old(self).capacities,
            final(self).occupancy == old(self).occupancy,
            final(self).congestion == old(self).congestion,
            final(self).touched == old(self).touched,
            final(self).history_at_most(0),
    {
        let ghost count = self.capacities@.len() as int;
        let ghost before = *self;
        let mut index: usize = 0;
        while index < self.touched.len()
            invariant
                index <= self.touched@.len(),
                count == self.capacities@.len(),
                before.wf(count),
                self.capacities == before.capacities,
                self.occupancy == before.occupancy,
                self.congestion == before.congestion,
                self.touched == before.touched,
                self.history@.len() == count,
                forall|r: int|
                    0 <= r < count ==> #[trigger] self.history@[r] == before.history@[r]
                        || self.history@[r] == 0,
                forall|i: int|
                    0 <= i < index ==> self.history@[(#[trigger] self.touched@[i]) as int] == 0,
            decreases self.touched@.len() - index,
        {
            let resource: usize = self.touched[index];
            assert(before.touched@[index as int] < count);
            self.history.set(resource, 0);
            index = index + 1;
        }
        proof {
            assert forall|r: int| 0 <= r < count implies #[trigger] self.listed(r) by {
                assert(before.listed(r));
                assert(self.history@[r] == before.history@[r] || self.history@[r] == 0);
            }
            assert forall|r: int| 0 <= r < count implies #[trigger] self.history@[r] <= 0 by {
                assert(before.listed(r));
                if self.touched@.contains(r as usize) {
                    let i = self.touched@.index_of(r as usize);
                    assert(self.touched@[i] == r);
                }
            }
        }
    }

    /// Prices one more user of one resource.
    pub fn price(&mut self, resource: usize, present: u32)
        requires
            old(self).wf(old(self).capacities@.len() as int),
            resource < old(self).capacities@.len(),
            old(self).touched@.contains(resource),
            old(self).history@[resource as int] <= 32 * HISTORY_STEP,
            present <= 4096,
        ensures
            final(self).wf(old(self).capacities@.len() as int),
            *final(self) == (ResourceTable { congestion: final(self).congestion, ..*old(self) }),
            final(self).congestion@ == old(self).congestion@.update(
                resource as int,
                final(self).congestion@[resource as int],
            ),
            final(self).congestion@[resource as int] == negotiated_price(
                old(self).occupancy@[resource as int] as int,
                old(self).capacities@[resource as int] as int,
                old(self).history@[resource as int] as int,
                present as int,
            ),
    {
        let ghost before = *self;
        proof {
            let overuse = crate::cost::prospective_overuse(
                self.occupancy@[resource as int] as int,
                self.capacities@[resource as int] as int,
            );
            assert(0 <= overuse <= 0xffff);
            assert(present * overuse <= 4096 * 0xffff) by (nonlinear_arith)
                requires
                    0 <= present <= 4096,
                    0 <= overuse <= 0xffff,
            ;
        }
        let price: u32 = cached_congestion_cost(
            self.occupancy[resource],
            self.capacities[resource],
            self.history[resource],
            present,
        );
        self.congestion.set(resource, price);
        proof {
            assert forall|r: int| 0 <= r < self.capacities@.len() implies #[trigger] self.listed(
                r,
            ) by {
                assert(before.listed(r));
            }
        }
    }

    /// Prices one more user of every listed resource.
    pub fn price_all(&mut self, present: u32)
        requires
            old(self).wf(old(self).capacities@.len() as int),
            old(self).history_at_most(32 * HISTORY_STEP),
            present <= 4096,
        ensures
            final(self).wf(old(self).capacities@.len() as int),
            *final(self) == (ResourceTable { congestion: final(self).congestion, ..*old(self) }),
            forall|r: int|
                0 <= r < final(self).capacities@.len() ==> #[trigger] final(self).congestion@[r]
                    == if final(self).touched@.contains(r as usize) {
                    negotiated_price(
                        final(self).occupancy@[r] as int,
                        final(self).capacities@[r] as int,
                        final(self).history@[r] as int,
                        present as int,
                    )
                } else {
                    0
                },
    {
        let ghost before = *self;
        let ghost count = self.capacities@.len() as int;
        let mut index: usize = 0;
        proof {
            assert forall|r: int| 0 <= r < count && !self.touched@.contains(r as usize) implies
            #[trigger] self.congestion@[r] == 0 by {
                assert(self.listed(r));
            }
        }
        while index < self.touched.len()
            invariant
                index <= self.touched@.len(),
                count == self.capacities@.len(),
                before.wf(count),
                self.wf(count),
                *self == (ResourceTable { congestion: self.congestion, ..before }),
                self.history_at_most(32 * HISTORY_STEP),
                present <= 4096,
                forall|r: int|
                    0 <= r < count && !self.touched@.contains(r as usize)
                        ==> #[trigger] self.congestion@[r] == 0,
                forall|i: int|
                    0 <= i < index ==> {
                        let r = (#[trigger] self.touched@[i]) as int;
                        self.congestion@[r] == negotiated_price(
                            self.occupancy@[r] as int,
                            self.capacities@[r] as int,
                            self.history@[r] as int,
                            present as int,
                        )
                    },
            decreases self.touched@.len() - index,
        {
            let resource: usize = self.touched[index];
            proof {
                assert(self.touched@[index as int] < count);
                assert(self.history@[resource as int] <= 32 * HISTORY_STEP);
                assert(self.touched@.contains(self.touched@[index as int]));
            }
            self.price(resource, present);
            index = index + 1;
        }
        proof {
            assert(self.capacities.len() == count);
            assert forall|r: int| 0 <= r < count implies #[trigger] self.congestion@[r]
                == if self.touched@.contains(r as usize) {
                negotiated_price(
                    self.occupancy@[r] as int,
                    self.capacities@[r] as int,
                    self.history@[r] as int,
                    present as int,
                )
            } else {
                0
            } by {
                if self.touched@.contains(r as usize) {
                    let i = self.touched@.index_of(r as usize);
                    assert(self.touched@[i] == r);
                }
            }
        }
    }

    /// Adds to the history of every overused resource its number of users above capacity.
    pub fn grow_history(&mut self, overused: &OrderedSet<usize>, Ghost(bound): Ghost<int>)
        requires
            old(self).wf(old(self).capacities@.len() as int),
            old(self).tracks(overused),
            old(self).history_at_most(bound),
            0 <= bound <= 32 * HISTORY_STEP,
        ensures
            final(self).wf(old(self).capacities@.len() as int),
            *final(self) == (ResourceTable { history: final(self).history, ..*old(self) }),
            final(self).history_at_most(bound + HISTORY_STEP),
            forall|r: int|
                0 <= r < final(self).history@.len() ==> #[trigger] final(self).history@[r] == old(
                    self).history@[r] + as_count(overused@.contains(r as usize)) * (old(
                    self).occupancy@[r] - old(self).capacities@[r]),
    {
        let ghost before = *self;
        let ghost count = self.capacities@.len() as int;
        let mut index: usize = 0;
        assert(self.capacities.len() == count);
        while index < overused.len()
            invariant
                index <= overused.ordered().len(),
                count == self.capacities@.len(),
                count <= usize::MAX,
                before.wf(count),
                before.tracks(overused),
                before.history_at_most(bound),
                0 <= bound <= 32 * HISTORY_STEP,
                self.history@.len() == count,
                *self == (ResourceTable { history: self.history, ..before }),
                forall|r: int|
                    0 <= r < count ==> #[trigger] self.history@[r] == before.history@[r] + as_count(
                        overused.ordered().take(index as int).contains(r as usize),
                    ) * (before.occupancy@[r] - before.capacities@[r]),
            decreases overused.ordered().len() - index,
        {
            let resource: usize = overused.at(index);
            let ghost earlier = self.history@;
            proof {
                assert(overused@.contains(resource));
                assert(before.history@[resource as int] <= bound);
                let prefix = overused.ordered().take(index as int);
                assert(!prefix.contains(resource)) by {
                    if prefix.contains(resource) {
                        let k = prefix.index_of(resource);
                        assert(overused.ordered()[k].rank() < overused.ordered()[index as int].rank());
                    }
                }
                assert(self.history@[resource as int] == before.history@[resource as int]);
            }
            let excess: u16 = self.occupancy[resource] - self.capacities[resource];
            let known: u32 = self.history[resource];
            self.history.set(resource, known.saturating_add(excess as u32));
            proof {
                let prefix = overused.ordered().take(index as int);
                let longer = overused.ordered().take(index + 1);
                assert(longer =~= prefix.push(resource));
                assert forall|r: int| 0 <= r < count implies #[trigger] self.history@[r]
                    == before.history@[r] + as_count(longer.contains(r as usize)) * (
                before.occupancy@[r] - before.capacities@[r]) by {
                    assert(earlier[r] == before.history@[r] + as_count(
                        prefix.contains(r as usize),
                    ) * (before.occupancy@[r] - before.capacities@[r]));
                    if r == resource {
                        assert(longer[index as int] == resource);
                    } else {
                        if prefix.contains(r as usize) {
                            let k = prefix.index_of(r as usize);
                            assert(longer[k] == r as usize);
                        }
                        if longer.contains(r as usize) {
                            let k = longer.index_of(r as usize);
                            assert(prefix[k] == r as usize);
                        }
                    }
                }
            }
            index = index + 1;
        }
        proof {
            assert(overused.ordered().take(index as int) =~= overused.ordered());
            assert forall|r: int| 0 <= r < count implies #[trigger] self.history@[r]
                == before.history@[r] + as_count(overused@.contains(r as usize)) * (
            before.occupancy@[r] - before.capacities@[r]) by {
                overused.membership(r as usize);
            }
            assert forall|r: int| 0 <= r < count implies #[trigger] self.history@[r] <= bound
                + HISTORY_STEP by {
                assert(before.history@[r] <= bound);
            }
            assert forall|r: int| 0 <= r < count implies #[trigger] self.listed(r) by {
                assert(before.listed(r));
                if overused@.contains(r as usize) {
                    assert(before.occupancy@[r] > before.capacities@[r]);
                }
            }
        }
    }

    /// Takes one user from every resource that one table names and another does not.
    pub fn retire<K: ResourceId>(
        &mut self,
        released: &OrderedMap<K, u32>,
        kept: Option<&OrderedMap<K, u32>>,
    )
        requires
            old(self).wf(old(self).capacities@.len() as int),
            released.wf(),
            kept matches Some(kept) ==> kept.wf(),
            forall|r: int| #[trigger]
                indices(*released).contains(r) ==> 0 <= r < old(self).capacities@.len() && (
                old(self).occupancy@[r] >= 1 || kept_indices(kept).contains(r)),
        ensures
            final(self).wf(old(self).capacities@.len() as int),
            *final(self) == (ResourceTable { occupancy: final(self).occupancy, ..*old(self) }),
            forall|r: int|
                0 <= r < final(self).occupancy@.len() ==> #[trigger] final(self).occupancy@[r]
                    == old(self).occupancy@[r] - as_count(
                    indices(*released).contains(r) && !kept_indices(kept).contains(r),
                ),
    {
        let ghost before = *self;
        let ghost count = self.capacities@.len() as int;
        let ghost keys = released.ordered();
        let mut index: usize = 0;
        while index < released.len()
            invariant
                index <= keys.len(),
                keys == released.ordered(),
                count == self.capacities@.len(),
                before.wf(count),
                self.wf(count),
                released.wf(),
                kept matches Some(kept) ==> kept.wf(),
                *self == (ResourceTable { occupancy: self.occupancy, ..before }),
                forall|r: int| #[trigger]
                    indices(*released).contains(r) ==> 0 <= r < count && (before.occupancy@[r] >= 1
                        || kept_indices(kept).contains(r)),
                forall|r: int|
                    0 <= r < count ==> #[trigger] self.occupancy@[r] == before.occupancy@[r]
                        - as_count(
                        ranked_in(keys, index as int, r) && !kept_indices(kept).contains(r),
                    ),
            decreases keys.len() - index,
        {
            let key = released.key_at(index);
            let resource: usize = key.index();
            let ghost earlier = *self;
            proof {
                released.entry(index as int);
                assert(indices(*released).contains(resource as int));
                lemma_ranked_in(keys, index as int);
            }
            if !names(kept, key) {
                let used: u16 = self.occupancy[resource];
                self.occupancy.set(resource, used - 1);
            }
            proof {
                assert forall|r: int| 0 <= r < count implies #[trigger] self.listed(r) by {
                    assert(earlier.listed(r));
                }
                assert forall|r: int| 0 <= r < count implies #[trigger] self.occupancy@[r]
                    == before.occupancy@[r] - as_count(
                    ranked_in(keys, index + 1, r) && !kept_indices(kept).contains(r),
                ) by {
                    assert(earlier.occupancy@[r] == before.occupancy@[r] - as_count(
                        ranked_in(keys, index as int, r) && !kept_indices(kept).contains(r),
                    ));
                    assert(ranked_in(keys, index + 1, r) <==> ranked_in(keys, index as int, r) || r
                        == resource);
                }
            }
            index = index + 1;
        }
        proof {
            assert forall|r: int| 0 <= r < count implies #[trigger] self.occupancy@[r]
                == before.occupancy@[r] - as_count(
                indices(*released).contains(r) && !kept_indices(kept).contains(r),
            ) by {
                lemma_indices(*released, r);
            }
        }
    }

    /// Adds one user to every resource that one table names and another does not;
    /// stops where a counter is full.
    pub fn enlist<K: ResourceId>(
        &mut self,
        claimed: &OrderedMap<K, u32>,
        known: Option<&OrderedMap<K, u32>>,
    ) -> (result: bool)
        requires
            old(self).wf(old(self).capacities@.len() as int),
            claimed.wf(),
            known matches Some(known) ==> known.wf(),
            forall|r: int| #[trigger]
                indices(*claimed).contains(r) ==> 0 <= r < old(self).capacities@.len(),
        ensures
            final(self).wf(old(self).capacities@.len() as int),
            final(self).capacities == old(self).capacities,
            final(self).history == old(self).history,
            final(self).congestion == old(self).congestion,
            result ==> forall|r: int|
                0 <= r < final(self).occupancy@.len() ==> #[trigger] final(self).occupancy@[r]
                    == old(self).occupancy@[r] + as_count(
                    indices(*claimed).contains(r) && !kept_indices(known).contains(r),
                ),
            result <==> forall|r: int| #[trigger]
                indices(*claimed).contains(r) && !kept_indices(known).contains(r) ==> old(
                    self).occupancy@[r] < u16::MAX,
    {
        let ghost before = *self;
        let ghost count = self.capacities@.len() as int;
        let ghost keys = claimed.ordered();
        let mut index: usize = 0;
        assert(self.capacities.len() == count);
        while index < claimed.len()
            invariant
                index <= keys.len(),
                keys == claimed.ordered(),
                count == self.capacities@.len(),
                count <= usize::MAX,
                before.wf(count),
                self.wf(count),
                claimed.wf(),
                known matches Some(known) ==> known.wf(),
                self.capacities == before.capacities,
                self.history == before.history,
                self.congestion == before.congestion,
                forall|r: int| #[trigger] indices(*claimed).contains(r) ==> 0 <= r < count,
                forall|r: int|
                    0 <= r < count ==> #[trigger] self.occupancy@[r] == before.occupancy@[r]
                        + as_count(
                        ranked_in(keys, index as int, r) && !kept_indices(known).contains(r),
                    ),
                forall|r: int|
                    #![trigger before.occupancy@[r]]
                    0 <= r < count && ranked_in(keys, index as int, r) && !kept_indices(
                        known,
                    ).contains(r) ==> before.occupancy@[r] < u16::MAX,
                before == *old(self),
            decreases keys.len() - index,
        {
            let key = claimed.key_at(index);
            let resource: usize = key.index();
            let ghost earlier = *self;
            proof {
                claimed.entry(index as int);
                assert(indices(*claimed).contains(resource as int));
                lemma_ranked_in(keys, index as int);
                assert(earlier.occupancy@[resource as int] == before.occupancy@[resource as int]
                    + as_count(
                    ranked_in(keys, index as int, resource as int) && !kept_indices(known).contains(
                        resource as int,
                    ),
                ));
            }
            if !names(known, key) {
                if self.occupancy[resource] == u16::MAX {
                    assert(indices(*claimed).contains(resource as int) && !kept_indices(
                        known,
                    ).contains(resource as int));
                    return false;
                }
                increment_occupancy(&mut self.occupancy, &mut self.touched, resource);
            }
            proof {
                lemma_push_keeps(earlier.touched@, resource);
                assert forall|r: int| 0 <= r < count implies #[trigger] self.listed(r) by {
                    assert(earlier.listed(r));
                    if earlier.touched@.contains(r as usize) {
                        assert(self.touched@.contains(r as usize));
                    }
                }
                assert forall|r: int| 0 <= r < count implies #[trigger] self.occupancy@[r]
                    == before.occupancy@[r] + as_count(
                    ranked_in(keys, index + 1, r) && !kept_indices(known).contains(r),
                ) by {
                    assert(earlier.occupancy@[r] == before.occupancy@[r] + as_count(
                        ranked_in(keys, index as int, r) && !kept_indices(known).contains(r),
                    ));
                    assert(ranked_in(keys, index + 1, r) <==> ranked_in(keys, index as int, r) || r
                        == resource);
                }
                assert forall|r: int|
                    #![trigger before.occupancy@[r]]
                    0 <= r < count && ranked_in(keys, index + 1, r) && !kept_indices(
                        known,
                    ).contains(r) implies before.occupancy@[r] < u16::MAX by {
                    assert(ranked_in(keys, index + 1, r) <==> ranked_in(keys, index as int, r) || r
                        == resource);
                }
            }
            index = index + 1;
        }
        proof {
            assert forall|r: int| 0 <= r < count implies #[trigger] self.occupancy@[r]
                == before.occupancy@[r] + as_count(
                indices(*claimed).contains(r) && !kept_indices(known).contains(r),
            ) by {
                lemma_indices(*claimed, r);
            }
            assert forall|r: int| #[trigger] indices(*claimed).contains(r) && !kept_indices(
                known,
            ).contains(r) implies before.occupancy@[r] < u16::MAX by {
                lemma_indices(*claimed, r);
            }
        }
        true
    }

    /// Notes which of the named resources are above capacity.
    pub fn track_keys<K: ResourceId>(&self, keys: &OrderedMap<K, u32>, overused: &mut OrderedSet<usize>)
        requires
            self.wf(self.capacities@.len() as int),
            keys.wf(),
            forall|r: int| #[trigger]
                indices(*keys).contains(r) ==> 0 <= r < self.capacities@.len(),
            old(overused).wf(),
            forall|r: usize| #[trigger]
                old(overused)@.contains(r) ==> r < self.occupancy@.len(),
            forall|r: usize|
                r < self.occupancy@.len() && !indices(*keys).contains(r as int) ==> (
                #[trigger] old(overused)@.contains(r) <==> self.occupancy@[r as int]
                    > self.capacities@[r as int]),
        ensures
            self.tracks(final(overused)),
    {
        let ghost count = self.capacities@.len() as int;
        let ghost list = keys.ordered();
        let mut index: usize = 0;
        proof {
            assert forall|r: usize|
                r < count && !indices(*keys).contains(r as int) implies (
            #[trigger] overused@.contains(r) <==> self.occupancy@[r as int]
                > self.capacities@[r as int]) by {}
        }
        while index < keys.len()
            invariant
                index <= list.len(),
                list == keys.ordered(),
                count == self.capacities@.len(),
                self.wf(count),
                keys.wf(),
                forall|r: int| #[trigger] indices(*keys).contains(r) ==> 0 <= r < count,
                overused.wf(),
                forall|r: usize| #[trigger] overused@.contains(r) ==> r < count,
                forall|r: usize|
                    r < count && (!indices(*keys).contains(r as int) || ranked_in(
                        list,
                        index as int,
                        r as int,
                    )) ==> (#[trigger] overused@.contains(r) <==> self.occupancy@[r as int]
                        > self.capacities@[r as int]),
            decreases list.len() - index,
        {
            let resource: usize = keys.key_at(index).index();
            proof {
                keys.entry(index as int);
                assert(indices(*keys).contains(resource as int));
                lemma_ranked_in(list, index as int);
            }
            let ghost earlier = overused@;
            track_entry(
                overused,
                self.occupancy[resource],
                self.capacities[resource],
                resource,
            );
            proof {
                assert forall|r: usize|
                    r < count && (!indices(*keys).contains(r as int) || ranked_in(
                        list,
                        index + 1,
                        r as int,
                    )) implies (#[trigger] overused@.contains(r) <==> self.occupancy@[r as int]
                    > self.capacities@[r as int]) by {
                    assert(ranked_in(list, index + 1, r as int) <==> ranked_in(
                        list,
                        index as int,
                        r as int,
                    ) || r == resource);
                    assert(r != resource ==> (overused@.contains(r) <==> earlier.contains(r)));
                }
            }
            index = index + 1;
        }
        proof {
            assert forall|r: usize| #[trigger] overused@.contains(r) <==> r
                < self.occupancy@.len() && self.occupancy@[r as int] > self.capacities@[r as int] by {
                lemma_indices(*keys, r as int);
            }
        }
    }

    /// Prices one more user of every named resource.
    pub fn price_keys<K: ResourceId>(&mut self, keys: &OrderedMap<K, u32>, present: u32)
        requires
            old(self).wf(old(self).capacities@.len() as int),
            old(self).history_at_most(32 * HISTORY_STEP),
            present <= 4096,
            keys.wf(),
            forall|r: int| #[trigger]
                indices(*keys).contains(r) ==> 0 <= r < old(self).capacities@.len() && old(
                    self).occupancy@[r] >= 1,
        ensures
            final(self).wf(old(self).capacities@.len() as int),
            *final(self) == (ResourceTable { congestion: final(self).congestion, ..*old(self) }),
            forall|r: int|
                0 <= r < final(self).congestion@.len() ==> #[trigger] final(self).congestion@[r]
                    == if indices(*keys).contains(r) {
                    negotiated_price(
                        final(self).occupancy@[r] as int,
                        final(self).capacities@[r] as int,
                        final(self).history@[r] as int,
                        present as int,
                    )
                } else {
                    old(self).congestion@[r] as int
                },
    {
        let ghost before = *self;
        let ghost count = self.capacities@.len() as int;
        let mut index: usize = 0;
        while index < keys.len()
            invariant
                index <= keys.ordered().len(),
                count == self.capacities@.len(),
                self.wf(count),
                keys.wf(),
                *self == (ResourceTable { congestion: self.congestion, ..before }),
                self.history_at_most(32 * HISTORY_STEP),
                present <= 4096,
                forall|r: int| #[trigger]
                    indices(*keys).contains(r) ==> 0 <= r < count && self.occupancy@[r] >= 1,
                forall|r: int|
                    0 <= r < count ==> #[trigger] self.congestion@[r] == if ranked_in(
                        keys.ordered(),
                        index as int,
                        r,
                    ) {
                        negotiated_price(
                            self.occupancy@[r] as int,
                            self.capacities@[r] as int,
                            self.history@[r] as int,
                            present as int,
                        )
                    } else {
                        before.congestion@[r] as int
                    },
            decreases keys.ordered().len() - index,
        {
            let resource: usize = keys.key_at(index).index();
            proof {
                keys.entry(index as int);
                assert(indices(*keys).contains(resource as int));
                assert(self.listed(resource as int));
                assert(self.history@[resource as int] <= 32 * HISTORY_STEP);
            }
            let ghost earlier = *self;
            self.price(resource, present);
            proof {
                let list = keys.ordered();
                assert forall|r: int| 0 <= r < count implies #[trigger] self.congestion@[r]
                    == if ranked_in(list, index + 1, r) {
                    negotiated_price(
                        self.occupancy@[r] as int,
                        self.capacities@[r] as int,
                        self.history@[r] as int,
                        present as int,
                    )
                } else {
                    before.congestion@[r] as int
                } by {
                    assert(earlier.congestion@.len() == count);
                    if r == resource {
                        assert(list[index as int].rank() == r);
                        assert(ranked_in(list, index + 1, r));
                    } else {
                        assert(self.congestion@[r] == earlier.congestion@[r]);
                        if ranked_in(list, index as int, r) {
                            let i = choose|i: int|
                                0 <= i < index && (#[trigger] list[i]).rank() == r;
                            assert(list[i].rank() == r);
                        }
                        if ranked_in(list, index + 1, r) {
                            let i = choose|i: int|
                                0 <= i < index + 1 && (#[trigger] list[i]).rank() == r;
                            assert(i < index);
                        }
                    }
                }
            }
            index = index + 1;
        }
        proof {
            let list = keys.ordered();
            assert forall|r: int| ranked_in(list, index as int, r) == #[trigger] indices(
                *keys,
            ).contains(r) by {
                if ranked_in(list, index as int, r) {
                    let i = choose|i: int| 0 <= i < index && (#[trigger] list[i]).rank() == r;
                    keys.entry(i);
                }
                if indices(*keys).contains(r) {
                    let k = choose|k: K| #[trigger] keys@.contains_key(k) && k.rank() == r;
                    let i = keys.key_index(k);
                    assert(list[i].rank() == r);
                }
            }
        }
    }

    /// Recounts the users after one set was replaced; false where a counter is full.
    pub fn recount<K: ResourceId>(
        &mut self,
        earlier: Option<&OrderedMap<K, u32>>,
        later: Option<&OrderedMap<K, u32>>,
        Ghost(sets): Ghost<Seq<Set<int>>>,
        Ghost(index): Ghost<int>,
    ) -> (result: bool)
        requires
            old(self).wf(old(self).capacities@.len() as int),
            old(self).counts(sets),
            0 <= index < sets.len(),
            sets[index] == kept_indices(earlier),
            earlier matches Some(table) ==> table.wf(),
            later matches Some(table) ==> table.wf(),
            names_range(earlier, old(self).capacities@.len() as int),
            names_range(later, old(self).capacities@.len() as int),
        ensures
            final(self).wf(old(self).capacities@.len() as int),
            final(self).capacities == old(self).capacities,
            final(self).history == old(self).history,
            final(self).congestion == old(self).congestion,
            result ==> final(self).counts(sets.update(index, kept_indices(later))),
            result ==> same_elsewhere(*old(self), *final(self), earlier, later),
            kept_indices(later).subset_of(kept_indices(earlier)) ==> result,
            !result ==> exists|r: int|
                {
                    &&& #[trigger] kept_indices(later).contains(r)
                    &&& 0 <= r < old(self).capacities@.len()
                    &&& users(sets, r) >= u16::MAX
                    &&& !sets[index].contains(r)
                },
    {
        let ghost before = *self;
        let ghost count = self.capacities@.len() as int;
        if let Some(table) = earlier {
            proof {
                assert forall|r: int| #[trigger] indices(*table).contains(r) implies 0 <= r < count
                    && self.occupancy@[r] >= 1 by {
                    assert(kept_indices(earlier).contains(r));
                    lemma_users_positive(sets, index, r);
                    assert(self.occupancy@[r] == users(sets, r));
                }
            }
            self.retire(table, later);
        }
        let ghost middle = *self;
        assert(middle.occupancy@.len() == count);
        if let Some(table) = later {
            proof {
                assert forall|r: int| #[trigger] indices(*table).contains(r) implies 0 <= r
                    < count by {
                    assert(kept_indices(later).contains(r));
                }
            }
            if !self.enlist(table, earlier) {
                proof {
                    let r = choose|r: int| #[trigger]
                        indices(*table).contains(r) && !kept_indices(earlier).contains(r)
                            && middle.occupancy@[r] >= u16::MAX;
                    assert(kept_indices(later).contains(r));
                    assert(middle.occupancy@[r] <= before.occupancy@[r]);
                    assert(before.occupancy@[r] == users(sets, r));
                }
                return false;
            }
        }
        proof {
            assert forall|r: int| 0 <= r < self.occupancy@.len() implies #[trigger] self.occupancy@[r]
                == users(sets.update(index, kept_indices(later)), r) by {
                lemma_users_update(sets, index, kept_indices(later), r);
                assert(before.occupancy@[r] == users(sets, r));
                assert(middle.occupancy@[r] == before.occupancy@[r] - as_count(
                    kept_indices(earlier).contains(r) && !kept_indices(later).contains(r),
                ));
                assert(self.occupancy@[r] == middle.occupancy@[r] + as_count(
                    kept_indices(later).contains(r) && !kept_indices(earlier).contains(r),
                ));
            }
            assert forall|r: int|
                0 <= r < count && !kept_indices(earlier).contains(r) && !kept_indices(
                    later,
                ).contains(r) implies #[trigger] self.occupancy@[r] == before.occupancy@[r] by {
                assert(middle.occupancy@[r] == before.occupancy@[r]);
            }
        }
        true
    }

    /// Notes which resources are above capacity after one set was replaced.
    pub fn follow<K: ResourceId>(
        &self,
        earlier: Option<&OrderedMap<K, u32>>,
        later: Option<&OrderedMap<K, u32>>,
        overused: &mut OrderedSet<usize>,
        Ghost(before): Ghost<ResourceTable>,
    )
        requires
            self.wf(self.capacities@.len() as int),
            before.capacities == self.capacities,
            before.occupancy@.len() == self.occupancy@.len(),
            before.tracks(old(overused)),
            same_elsewhere(before, *self, earlier, later),
            earlier matches Some(table) ==> table.wf(),
            later matches Some(table) ==> table.wf(),
            names_range(earlier, self.capacities@.len() as int),
            names_range(later, self.capacities@.len() as int),
        ensures
            self.tracks(final(overused)),
    {
        let ghost start = overused@;
        if let Some(table) = earlier {
            assert forall|r: int| #[trigger] indices(*table).contains(r) implies 0 <= r
                < self.capacities@.len() by {
                assert(kept_indices(earlier).contains(r));
            }
            self.track_more(table, overused);
        }
        let ghost middle = overused@;
        if let Some(table) = later {
            assert forall|r: int| #[trigger] indices(*table).contains(r) implies 0 <= r
                < self.capacities@.len() by {
                assert(kept_indices(later).contains(r));
            }
            self.track_more(table, overused);
        }
        proof {
            assert forall|r: usize| #[trigger] overused@.contains(r) <==> r
                < self.occupancy@.len() && self.occupancy@[r as int] > self.capacities@[r as int] by {
                if r < self.occupancy@.len() {
                    if !kept_indices(earlier).contains(r as int) && !kept_indices(later).contains(
                        r as int,
                    ) {
                        assert(self.occupancy@[r as int] == before.occupancy@[r as int]);
                        assert(self.judged(start, r));
                    }
                    assert(kept_indices(later).contains(r as int) || self.judged(middle, r));
                    assert(self.judged(overused@, r));
                }
            }
        }
    }

    /// Every resource above capacity.
    pub fn find_overused(&self) -> (result: OrderedSet<usize>)
        requires
            self.wf(self.capacities@.len() as int),
        ensures
            self.tracks(&result),
    {
        let mut result: OrderedSet<usize> = OrderedSet::new();
        let ghost count = self.capacities@.len() as int;
        let mut index: usize = 0;
        while index < self.touched.len()
            invariant
                index <= self.touched@.len(),
                count == self.capacities@.len(),
                self.wf(count),
                result.wf(),
                forall|r: usize| #[trigger]
                    result@.contains(r) <==> r < count && self.occupancy@[r as int]
                        > self.capacities@[r as int] && self.touched@.take(index as int).contains(
                        r,
                    ),
            decreases self.touched@.len() - index,
        {
            let resource: usize = self.touched[index];
            assert(self.touched@[index as int] < count);
            let ghost before = result@;
            if self.occupancy[resource] > self.capacities[resource] {
                result.insert(resource);
            }
            proof {
                let shorter = self.touched@.take(index as int);
                let longer = self.touched@.take(index + 1);
                assert(longer =~= shorter.push(resource));
                lemma_push_keeps(shorter, resource);
                assert forall|r: usize| #[trigger] result@.contains(r) <==> r < count
                    && self.occupancy@[r as int] > self.capacities@[r as int] && longer.contains(
                    r,
                ) by {
                    if longer.contains(r) && r != resource {
                        let i = longer.index_of(r);
                        assert(shorter[i] == r);
                    }
                }
            }
            index = index + 1;
        }
        proof {
            assert(self.touched@.take(index as int) =~= self.touched@);
            assert forall|r: usize| #[trigger] result@.contains(r) <==> r
                < self.occupancy@.len() && self.occupancy@[r as int] > self.capacities@[r as int] by {
                if r < count {
                    assert(self.listed(r as int));
                }
            }
        }
        result
    }

    /// The tracker is right about a resource.
    pub open spec fn judged(&self, overused: Set<usize>, resource: usize) -> bool {
        overused.contains(resource) <==> self.occupancy@[resource as int]
            > self.capacities@[resource as int]
    }

    /// Notes which of the named resources are above capacity.
    fn track_more<K: ResourceId>(&self, keys: &OrderedMap<K, u32>, overused: &mut OrderedSet<usize>)
        requires
            self.wf(self.capacities@.len() as int),
            keys.wf(),
            forall|r: int| #[trigger]
                indices(*keys).contains(r) ==> 0 <= r < self.capacities@.len(),
            old(overused).wf(),
            forall|r: usize| #[trigger]
                old(overused)@.contains(r) ==> r < self.occupancy@.len(),
        ensures
            final(overused).wf(),
            forall|r: usize| #[trigger]
                final(overused)@.contains(r) ==> r < self.occupancy@.len(),
            forall|r: usize|
                r < self.occupancy@.len() && (indices(*keys).contains(r as int) || self.judged(
                    old(overused)@,
                    r,
                )) ==> #[trigger] self.judged(final(overused)@, r),
    {
        let ghost list = keys.ordered();
        let ghost start = overused@;
        let mut index: usize = 0;
        while index < keys.len()
            invariant
                index <= list.len(),
                list == keys.ordered(),
                self.wf(self.capacities@.len() as int),
                keys.wf(),
                forall|r: int| #[trigger]
                    indices(*keys).contains(r) ==> 0 <= r < self.capacities@.len(),
                overused.wf(),
                forall|r: usize| #[trigger] overused@.contains(r) ==> r < self.occupancy@.len(),
                forall|r: usize|
                    r < self.occupancy@.len() && (ranked_in(list, index as int, r as int)
                        || self.judged(start, r)) ==> #[trigger] self.judged(overused@, r),
            decreases list.len() - index,
        {
            let resource: usize = keys.key_at(index).index();
            proof {
                keys.entry(index as int);
                assert(indices(*keys).contains(resource as int));
                lemma_ranked_in(list, index as int);
            }
            let ghost now = overused@;
            track_entry(
                overused,
                self.occupancy[resource],
                self.capacities[resource],
                resource,
            );
            proof {
                assert forall|r: usize|
                    r < self.occupancy@.len() && (ranked_in(list, index + 1, r as int)
                        || self.judged(start, r)) implies #[trigger] self.judged(
                    overused@,
                    r,
                ) by {
                    assert(ranked_in(list, index + 1, r as int) <==> ranked_in(
                        list,
                        index as int,
                        r as int,
                    ) || r == resource);
                    if r != resource {
                        assert(self.judged(now, r));
                    }
                }
            }
            index = index + 1;
        }
        proof {
            assert forall|r: usize|
                r < self.occupancy@.len() && (indices(*keys).contains(r as int) || self.judged(
                    start,
                    r,
                )) implies #[trigger] self.judged(overused@, r) by {
                lemma_indices(*keys, r as int);
            }
        }
    }
}

/// Every resource that an optional table names has an index below a bound.
pub open spec fn names_range<K: ResourceId>(table: Option<&OrderedMap<K, u32>>, count: int) -> bool {
    forall|r: int| #[trigger] kept_indices(table).contains(r) ==> 0 <= r < count
}

/// Resources that neither table names have the users they had.
pub open spec fn same_elsewhere<K: ResourceId>(
    before: ResourceTable,
    after: ResourceTable,
    earlier: Option<&OrderedMap<K, u32>>,
    later: Option<&OrderedMap<K, u32>>,
) -> bool {
    forall|r: int|
        0 <= r < after.occupancy@.len() && !kept_indices(earlier).contains(r) && !kept_indices(
            later,
        ).contains(r) ==> #[trigger] after.occupancy@[r] == before.occupancy@[r]
}

/// Indices of the resources that an optional table names.
pub open spec fn kept_indices<K: ResourceId>(table: Option<&OrderedMap<K, u32>>) -> Set<int> {
    match table {
        Some(table) => indices(*table),
        None => Set::empty(),
    }
}

/// One of the first keys has the rank.
spec fn ranked_in<K: OrderedKey>(keys: Seq<K>, count: int, rank: int) -> bool {
    exists|i: int| 0 <= i < count && (#[trigger] keys[i]).rank() == rank
}

/// One more key adds its own rank.
proof fn lemma_ranked_in<K: OrderedKey>(keys: Seq<K>, index: int)
    requires
        0 <= index < keys.len(),
        crate::ordered::increasing(keys),
    ensures
        forall|r: int|
            #![trigger ranked_in(keys, index + 1, r)]
            ranked_in(keys, index + 1, r) <==> ranked_in(keys, index, r) || r == keys[index].rank(),
        !ranked_in(keys, index, keys[index].rank()),
{
    assert forall|r: int|
        #![trigger ranked_in(keys, index + 1, r)]
        ranked_in(keys, index + 1, r) <==> ranked_in(keys, index, r) || r == keys[index].rank() by {
        if ranked_in(keys, index + 1, r) {
            let i = choose|i: int| 0 <= i < index + 1 && (#[trigger] keys[i]).rank() == r;
            if i < index {
                assert(keys[i].rank() == r);
            }
        }
        if ranked_in(keys, index, r) {
            let i = choose|i: int| 0 <= i < index && (#[trigger] keys[i]).rank() == r;
            assert(keys[i].rank() == r);
        }
        if r == keys[index].rank() {
            assert(keys[index].rank() == r);
        }
    }
    if ranked_in(keys, index, keys[index].rank()) {
        let i = choose|i: int|
            0 <= i < index && (#[trigger] keys[i]).rank() == keys[index].rank();
        assert(keys[i].rank() < keys[index].rank());
    }
}

/// The named indices are the ranks of the keys.
proof fn lemma_indices<K: ResourceId>(table: OrderedMap<K, u32>, rank: int)
    requires
        table.wf(),
    ensures
        indices(table).contains(rank) <==> ranked_in(
            table.ordered(),
            table.ordered().len() as int,
            rank,
        ),
{
    if indices(table).contains(rank) {
        let k = choose|k: K| #[trigger] table@.contains_key(k) && k.rank() == rank;
        let i = table.key_index(k);
        assert(table.ordered()[i].rank() == rank);
    }
    if ranked_in(table.ordered(), table.ordered().len() as int, rank) {
        let i = choose|i: int|
            0 <= i < table.ordered().len() && (#[trigger] table.ordered()[i]).rank() == rank;
        table.entry(i);
        assert(table@.contains_key(table.ordered()[i]));
    }
}

/// Appending keeps every member.
proof fn lemma_push_keeps(items: Seq<usize>, value: usize)
    ensures
        items.push(value).contains(value),
        forall|x: usize| #[trigger] items.contains(x) ==> items.push(value).contains(x),
{
    assert(items.push(value)[items.len() as int] == value);
    assert forall|x: usize| #[trigger] items.contains(x) implies items.push(value).contains(x) by {
        let i = items.index_of(x);
        assert(items.push(value)[i] == x);
    }
}

/// Whether an optional table names a resource.
fn names<K: ResourceId>(table: Option<&OrderedMap<K, u32>>, key: K) -> (result: bool)
    requires
        table matches Some(table) ==> table.wf(),
    ensures
        result == kept_indices(table).contains(key.rank()),
{
    match table {
        None => false,
        Some(table) => {
            let result = table.contains_key(key);
            proof {
                if indices(*table).contains(key.rank()) {
                    let k = choose|k: K| #[trigger] table@.contains_key(k) && k.rank()
                        == key.rank();
                    K::rank_is_injective(k, key);
                }
                if table@.contains_key(key) {
                    assert(table@.contains_key(key) && key.rank() == key.rank());
                }
            }
            result
        },
    }
}

} // verus!
