//! Reusable negotiated-routing state sized for one physical device.

use std::sync::Arc;

use vstd::prelude::*;

use crate::device::Device;
use crate::model::{NetId, Point};
use crate::net_router::UNROUTED_ARRIVAL_PS;
use crate::net_routing::all_unrouted;
use crate::occupancy::{
    indices, kept_indices, lemma_users_of_nothing, lemma_users_positive, lemma_users_update,
    pip_sets, slot_pips, slot_wires, users, wire_sets, ResourceTable,
};
use crate::owners::{slots_wf, OwnerIndex};
use crate::route::NetRoute;
use crate::routing_constraints::RoutingConstraints;
use crate::routing_costs::share;
use crate::slots::enters_full;
use crate::search::{RouteSearch, RoutingResourceMetadata};

verus! {

/// Reusable negotiated-routing state sized for one physical device.
///
/// Keeping occupancy, history, and search scratch alive across trials avoids
/// allocating them for every trial; the result of a trial does not depend on
/// the trials before it.
#[derive(Clone, Debug)]
pub struct RoutingWorkspace {
    /// Users, history, and price of every wire.
    pub wires: ResourceTable,
    /// Users, history, and price of every PIP.
    pub pips: ResourceTable,
    /// Search scratch.
    pub search: RouteSearch,
    /// Arrival at each wire of the tree under construction.
    pub tree_arrival_ps: Vec<u64>,
    /// Tile of each wire.
    pub wire_points: Vec<Point>,
    /// Owners of the capacity-one wires.
    pub wire_owners: OwnerIndex,
    /// Owners of the capacity-one PIPs.
    pub pip_owners: OwnerIndex,
    /// Routes that the occupancy reflects.
    pub resident_routes: Vec<Option<Arc<NetRoute>>>,
    /// Whether the occupancy reflects the resident routes.
    pub resident_valid: bool,
}

/// The route of a slot is ordered and uses resources of the device.
pub open spec fn slot_fits(slot: Option<Arc<NetRoute>>, wires: int, pips: int) -> bool {
    slot matches Some(route) ==> {
        &&& route.wf()
        &&& forall|r: int| #[trigger] slot_wires(slot).contains(r) ==> 0 <= r < wires
        &&& forall|r: int| #[trigger] slot_pips(slot).contains(r) ==> 0 <= r < pips
    }
}

/// Every route is ordered and uses resources of the device.
pub open spec fn slots_fit(routes: Seq<Option<Arc<NetRoute>>>, wires: int, pips: int) -> bool {
    forall|i: int| 0 <= i < routes.len() ==> slot_fits(#[trigger] routes[i], wires, pips)
}

/// Routes that fit are ordered.
pub proof fn lemma_slots_wf(routes: Seq<Option<Arc<NetRoute>>>, wires: int, pips: int)
    requires
        slots_fit(routes, wires, pips),
    ensures
        slots_wf(routes),
{
    assert forall|i: int| 0 <= i < routes.len() implies ((#[trigger] routes[i]) matches Some(
        route,
    ) ==> route.wf()) by {
        assert(slot_fits(routes[i], wires, pips));
    }
}

/// Replacing a slot replaces its set of wires and its set of PIPs.
pub proof fn lemma_sets_update(
    routes: Seq<Option<Arc<NetRoute>>>,
    index: int,
    slot: Option<Arc<NetRoute>>,
)
    requires
        0 <= index < routes.len(),
    ensures
        wire_sets(routes.update(index, slot)) == wire_sets(routes).update(index, slot_wires(slot)),
        pip_sets(routes.update(index, slot)) == pip_sets(routes).update(index, slot_pips(slot)),
{
    assert(wire_sets(routes.update(index, slot)) =~= wire_sets(routes).update(
        index,
        slot_wires(slot),
    ));
    assert(pip_sets(routes.update(index, slot)) =~= pip_sets(routes).update(
        index,
        slot_pips(slot),
    ));
}

/// A counter can hold the users of every resource.
pub open spec fn countable(routes: Seq<Option<Arc<NetRoute>>>, wires: int, pips: int) -> bool {
    &&& forall|r: int| 0 <= r < wires ==> #[trigger] users(wire_sets(routes), r) <= u16::MAX
    &&& forall|r: int| 0 <= r < pips ==> #[trigger] users(pip_sets(routes), r) <= u16::MAX
}

/// Larger sets have no fewer users.
proof fn lemma_users_grow(a: Seq<Set<int>>, b: Seq<Set<int>>, resource: int)
    requires
        a.len() == b.len(),
        forall|i: int| 0 <= i < a.len() ==> (#[trigger] a[i]).subset_of(b[i]),
    ensures
        users(a, resource) <= users(b, resource),
    decreases a.len(),
{
    if a.len() > 0 {
        assert forall|i: int| 0 <= i < a.len() - 1 implies (#[trigger] a.drop_last()[i]).subset_of(
            b.drop_last()[i],
        ) by {
            assert(a[i].subset_of(b[i]));
        }
        lemma_users_grow(a.drop_last(), b.drop_last(), resource);
        assert(a[a.len() - 1].subset_of(b[a.len() - 1]));
    }
}

/// Where one more slot enters a full counter, the whole cannot be counted.
proof fn lemma_not_countable(
    part: Seq<Option<Arc<NetRoute>>>,
    whole: Seq<Option<Arc<NetRoute>>>,
    index: int,
    wires: int,
    pips: int,
)
    requires
        part.len() == whole.len(),
        0 <= index < part.len(),
        forall|i: int|
            0 <= i < part.len() ==> #[trigger] part[i] is None || part[i] == whole[i],
        enters_full(part, index, whole[index]),
        slot_fits(whole[index], wires, pips),
    ensures
        !countable(whole, wires, pips),
{
    let more = part.update(index, whole[index]);
    lemma_sets_update(part, index, whole[index]);
    assert forall|i: int| 0 <= i < more.len() implies slot_wires(#[trigger] more[i]).subset_of(
        slot_wires(whole[i]),
    ) && slot_pips(more[i]).subset_of(slot_pips(whole[i])) by {
        assert(part[i] is None || part[i] == whole[i]);
    }
    assert forall|i: int| 0 <= i < more.len() implies (#[trigger] wire_sets(more)[i]).subset_of(
        wire_sets(whole)[i],
    ) by {
        assert(slot_wires(more[i]).subset_of(slot_wires(whole[i])));
    }
    assert forall|i: int| 0 <= i < more.len() implies (#[trigger] pip_sets(more)[i]).subset_of(
        pip_sets(whole)[i],
    ) by {
        assert(slot_pips(more[i]).subset_of(slot_pips(whole[i])));
    }
    if exists|r: int|
        #[trigger] slot_wires(whole[index]).contains(r) && users(wire_sets(part), r) >= u16::MAX
            && !slot_wires(part[index]).contains(r) {
        let r = choose|r: int|
            #[trigger] slot_wires(whole[index]).contains(r) && users(wire_sets(part), r)
                >= u16::MAX && !slot_wires(part[index]).contains(r);
        lemma_users_update(wire_sets(part), index, slot_wires(whole[index]), r);
        lemma_users_grow(wire_sets(more), wire_sets(whole), r);
    } else {
        let r = choose|r: int|
            #[trigger] slot_pips(whole[index]).contains(r) && users(pip_sets(part), r)
                >= u16::MAX && !slot_pips(part[index]).contains(r);
        lemma_users_update(pip_sets(part), index, slot_pips(whole[index]), r);
        lemma_users_grow(pip_sets(more), pip_sets(whole), r);
    }
}

impl RoutingWorkspace {
    /// Number of wires.
    pub open spec fn wire_count(&self) -> int {
        self.wire_points@.len() as int
    }

    /// Number of PIPs.
    pub open spec fn pip_count(&self) -> int {
        self.pips.capacities@.len() as int
    }

    /// No resource has a negotiated price.
    pub open spec fn unpriced(&self) -> bool {
        &&& forall|r: int|
            0 <= r < self.wires.congestion@.len() ==> #[trigger] self.wires.congestion@[r] == 0
        &&& forall|r: int|
            0 <= r < self.pips.congestion@.len() ==> #[trigger] self.pips.congestion@[r] == 0
    }

    /// The workspace is well-formed and searches with the standard estimates.
    pub open spec fn is_ready(&self) -> bool {
        self.wf() && self.search.has_standard_estimates()
    }

    /// The tables have matching lengths, no tree is under construction, and a valid
    /// snapshot is what the occupancy counts.
    pub open spec fn wf(&self) -> bool {
        &&& self.wires.wf(self.wire_count())
        &&& self.pips.wf(self.pip_count())
        &&& self.search.wf(self.wire_count())
        &&& self.tree_arrival_ps@.len() == self.wire_count()
        &&& all_unrouted(self.tree_arrival_ps@)
        &&& self.wire_owners.wf()
        &&& self.pip_owners.wf()
        &&& self.resident_valid ==> {
            &&& slots_fit(self.resident_routes@, self.wire_count(), self.pip_count())
            &&& self.wires.counts(wire_sets(self.resident_routes@))
            &&& self.pips.counts(pip_sets(self.resident_routes@))
        }
    }

    /// Geometry and capacities are those of the device.
    pub open spec fn fits(&self, device: &Device) -> bool {
        &&& self.wire_points@.len() == device.wires@.len()
        &&& self.wires.capacities@.len() == device.wires@.len()
        &&& self.pips.capacities@.len() == device.pips@.len()
        &&& forall|w: int|
            0 <= w < device.wires@.len() ==> #[trigger] self.wire_points@[w]
                == device.wires@[w].point
        &&& forall|w: int|
            0 <= w < device.wires@.len() ==> #[trigger] self.wires.capacities@[w]
                == device.wires@[w].capacity
        &&& forall|p: int|
            0 <= p < device.pips@.len() ==> #[trigger] self.pips.capacities@[p]
                == device.pips@[p].capacity
    }

    /// Allocates routing state for a device.
    pub fn new(device: &Device) -> (result: Self)
        requires
            device.wf(),
        ensures
            result.is_ready(),
            result.fits(device),
            !result.resident_valid,
            forall|r: int| 0 <= r < device.wires@.len() ==> #[trigger] result.wires.blank(r),
            forall|r: int| 0 <= r < device.pips@.len() ==> #[trigger] result.pips.blank(r),
    {
        let mut wire_points: Vec<Point> = Vec::new();
        let mut wire_capacities: Vec<u16> = Vec::new();
        let mut index: usize = 0;
        while index < device.wires.len()
            invariant
                index <= device.wires@.len(),
                wire_points@.len() == index,
                wire_capacities@.len() == index,
                forall|w: int|
                    0 <= w < index ==> #[trigger] wire_points@[w] == device.wires@[w].point,
                forall|w: int|
                    0 <= w < index ==> #[trigger] wire_capacities@[w] == device.wires@[w].capacity,
            decreases device.wires@.len() - index,
        {
            wire_points.push(device.wires[index].point);
            wire_capacities.push(device.wires[index].capacity);
            index = index + 1;
        }
        let mut pip_capacities: Vec<u16> = Vec::new();
        let mut index: usize = 0;
        while index < device.pips.len()
            invariant
                index <= device.pips@.len(),
                pip_capacities@.len() == index,
                forall|p: int|
                    0 <= p < index ==> #[trigger] pip_capacities@[p] == device.pips@[p].capacity,
            decreases device.pips@.len() - index,
        {
            pip_capacities.push(device.pips[index].capacity);
            index = index + 1;
        }
        let count: usize = device.wires.len();
        RoutingWorkspace {
            wires: ResourceTable::new(wire_capacities),
            pips: ResourceTable::new(pip_capacities),
            search: RouteSearch::new(count),
            tree_arrival_ps: vec![UNROUTED_ARRIVAL_PS; count],
            wire_points,
            wire_owners: OwnerIndex::new(),
            pip_owners: OwnerIndex::new(),
            resident_routes: Vec::new(),
            resident_valid: false,
        }
    }

    /// Whether geometry and capacities are those of the device.
    pub fn matches(&self, device: &Device) -> (result: bool)
        requires
            self.wf(),
        ensures
            result == self.fits(device),
    {
        if self.wire_points.len() != device.wires.len() || self.pips.capacities.len()
            != device.pips.len() {
            return false;
        }
        let mut index: usize = 0;
        while index < device.wires.len()
            invariant
                index <= device.wires@.len(),
                self.wf(),
                self.wire_points@.len() == device.wires@.len(),
                self.pips.capacities@.len() == device.pips@.len(),
                forall|w: int|
                    0 <= w < index ==> #[trigger] self.wire_points@[w] == device.wires@[w].point,
                forall|w: int|
                    0 <= w < index ==> #[trigger] self.wires.capacities@[w]
                        == device.wires@[w].capacity,
            decreases device.wires@.len() - index,
        {
            let point = self.wire_points[index];
            if point.x != device.wires[index].point.x || point.y != device.wires[index].point.y
                || self.wires.capacities[index] != device.wires[index].capacity {
                assert(self.wire_points@[index as int] != device.wires@[index as int].point
                    || self.wires.capacities@[index as int]
                    != device.wires@[index as int].capacity);
                return false;
            }
            index = index + 1;
        }
        let mut index: usize = 0;
        while index < device.pips.len()
            invariant
                index <= device.pips@.len(),
                self.pips.capacities@.len() == device.pips@.len(),
                forall|p: int|
                    0 <= p < index ==> #[trigger] self.pips.capacities@[p]
                        == device.pips@[p].capacity,
            decreases device.pips@.len() - index,
        {
            if self.pips.capacities[index] != device.pips[index].capacity {
                assert(self.pips.capacities@[index as int] != device.pips@[index as int].capacity);
                return false;
            }
            index = index + 1;
        }
        true
    }

    /// Geometry and capacities for a search.
    pub fn metadata<'a>(&'a self) -> (result: RoutingResourceMetadata<'a>)
        ensures
            result.wire_points@ == self.wire_points@,
            result.wire_capacities@ == self.wires.capacities@,
            result.pip_capacities@ == self.pips.capacities@,
    {
        RoutingResourceMetadata {
            wire_points: self.wire_points.as_slice(),
            wire_capacities: self.wires.capacities.as_slice(),
            pip_capacities: self.pips.capacities.as_slice(),
        }
    }

    /// Empties the workspace for a device.
    pub fn prepare(&mut self, device: &Device)
        requires
            device.wf(),
            old(self).wf(),
        ensures
            final(self).wf(),
            final(self).fits(device),
            !final(self).resident_valid,
            final(self).resident_routes@.len() == 0,
            old(self).fits(device) ==> final(self).search == old(self).search,
            !old(self).fits(device) ==> final(self).search.has_standard_estimates(),
            forall|r: int| 0 <= r < device.wires@.len() ==> #[trigger] final(self).wires.blank(r),
            forall|r: int| 0 <= r < device.pips@.len() ==> #[trigger] final(self).pips.blank(r),
    {
        if !self.matches(device) {
            *self = Self::new(device);
            self.resident_routes = Vec::new();
            return ;
        }
        self.wires.reset();
        self.pips.reset();
        self.resident_routes.clear();
        self.resident_valid = false;
    }

    /// Gives a slot of the snapshot another route; false where a counter is full.
    fn replace_resident(&mut self, index: usize, slot: Option<Arc<NetRoute>>) -> (result: bool)
        requires
            old(self).wf(),
            old(self).resident_valid,
            index < old(self).resident_routes@.len(),
            slot_fits(slot, old(self).wire_count(), old(self).pip_count()),
        ensures
            final(self).wires.wf(old(self).wire_count()),
            final(self).pips.wf(old(self).pip_count()),
            final(self).wires.capacities == old(self).wires.capacities,
            final(self).pips.capacities == old(self).pips.capacities,
            final(self).wires.history == old(self).wires.history,
            final(self).pips.history == old(self).pips.history,
            final(self).wires.congestion == old(self).wires.congestion,
            final(self).pips.congestion == old(self).pips.congestion,
            *final(self) == (RoutingWorkspace {
                wires: final(self).wires,
                pips: final(self).pips,
                resident_routes: final(self).resident_routes,
                resident_valid: final(self).resident_valid,
                ..*old(self)
            }),
            result ==> final(self).wf() && final(self).resident_valid && final(
                self).resident_routes@ == old(self).resident_routes@.update(index as int, slot),
            !result ==> !final(self).resident_valid,
            !result ==> enters_full(old(self).resident_routes@, index as int, slot),
    {
        let ghost before = *self;
        let ghost routes = self.resident_routes@;
        let ghost wires = wire_sets(routes);
        let ghost pips = pip_sets(routes);
        let old_slot = match &self.resident_routes[index] {
            Some(route) => Some(share(route)),
            None => None,
        };
        assert(slot_fits(routes[index as int], self.wire_count(), self.pip_count()));
        let new_wires = match &slot {
            Some(route) => Some(&route.wire_refs),
            None => None,
        };
        let new_pips = match &slot {
            Some(route) => Some(&route.pip_refs),
            None => None,
        };
        assert(kept_indices(new_wires) =~= slot_wires(slot));
        assert(kept_indices(new_pips) =~= slot_pips(slot));
        if let Some(route) = &old_slot {
            proof {
                assert forall|r: int| #[trigger] indices(route.wire_refs).contains(r) implies 0 <= r
                    < self.wire_count() && self.wires.occupancy@[r] >= 1 by {
                    assert(slot_wires(routes[index as int]).contains(r));
                    assert(wires[index as int].contains(r));
                    lemma_users_positive(wires, index as int, r);
                }
                assert forall|r: int| #[trigger] indices(route.pip_refs).contains(r) implies 0 <= r
                    < self.pip_count() && self.pips.occupancy@[r] >= 1 by {
                    assert(slot_pips(routes[index as int]).contains(r));
                    assert(pips[index as int].contains(r));
                    lemma_users_positive(pips, index as int, r);
                }
            }
            self.wires.retire(&route.wire_refs, new_wires);
            self.pips.retire(&route.pip_refs, new_pips);
        }
        self.resident_valid = false;
        if let Some(route) = &slot {
            let old_wires = match &old_slot {
                Some(route) => Some(&route.wire_refs),
                None => None,
            };
            let old_pips = match &old_slot {
                Some(route) => Some(&route.pip_refs),
                None => None,
            };
            assert(kept_indices(old_wires) =~= slot_wires(routes[index as int]));
            assert(kept_indices(old_pips) =~= slot_pips(routes[index as int]));
            assert forall|r: int| #[trigger] indices(route.wire_refs).contains(r) implies 0 <= r
                < self.wire_count() by {
                assert(slot_wires(slot).contains(r));
            }
            assert forall|r: int| #[trigger] indices(route.pip_refs).contains(r) implies 0 <= r
                < self.pip_count() by {
                assert(slot_pips(slot).contains(r));
            }
            let ghost emptied = *self;
            if !self.wires.enlist(&route.wire_refs, old_wires) {
                proof {
                    let r = choose|r: int| #[trigger]
                        indices(route.wire_refs).contains(r) && !kept_indices(old_wires).contains(r)
                            && emptied.wires.occupancy@[r] >= u16::MAX;
                    assert(before.wires.occupancy@[r] == users(wires, r));
                    assert(slot_wires(slot).contains(r));
                }
                return false;
            }
            if !self.pips.enlist(&route.pip_refs, old_pips) {
                proof {
                    let r = choose|r: int| #[trigger]
                        indices(route.pip_refs).contains(r) && !kept_indices(old_pips).contains(r)
                            && emptied.pips.occupancy@[r] >= u16::MAX;
                    assert(before.pips.occupancy@[r] == users(pips, r));
                    assert(slot_pips(slot).contains(r));
                }
                return false;
            }
        }
        let ghost given = slot;
        self.resident_routes.set(index, slot);
        self.resident_valid = true;
        proof {
            lemma_sets_update(routes, index as int, given);
            assert(self.resident_routes@ == routes.update(index as int, given));
            assert forall|r: int| 0 <= r < self.wires.occupancy@.len() implies #[trigger] self.wires.occupancy@[r]
                == users(wire_sets(self.resident_routes@), r) by {
                lemma_users_update(wires, index as int, slot_wires(given), r);
                assert(before.wires.occupancy@[r] == users(wires, r));
            }
            assert forall|r: int| 0 <= r < self.pips.occupancy@.len() implies #[trigger] self.pips.occupancy@[r]
                == users(pip_sets(self.resident_routes@), r) by {
                lemma_users_update(pips, index as int, slot_pips(given), r);
                assert(before.pips.occupancy@[r] == users(pips, r));
            }
            assert(slots_fit(self.resident_routes@, self.wire_count(), self.pip_count())) by {
                assert forall|i: int| 0 <= i < self.resident_routes@.len() implies slot_fits(
                    #[trigger] self.resident_routes@[i],
                    self.wire_count(),
                    self.pip_count(),
                ) by {
                    if i != index {
                        assert(slot_fits(routes[i], before.wire_count(), before.pip_count()));
                    }
                }
            }
        }
        true
    }

    /// Synchronizes the occupancy to the immutable routes of a new trial.
    ///
    /// Only changed trees touch resource counters. History starts anew, so that
    /// rejected trials do not bias the next one. Answers nothing where a
    /// counter is full.
    pub fn prepare_routes(
        &mut self,
        device: &Device,
        net_count: usize,
        constraints: &RoutingConstraints,
    ) -> (result: Option<Vec<Option<Arc<NetRoute>>>>)
        requires
            device.wf(),
            old(self).wf(),
            constraints.wf(),
            forall|n: NetId| #[trigger]
                constraints.routes@.contains_key(n) ==> n.0 < net_count && slot_fits(
                    Some(constraints.routes@[n]),
                    device.wires@.len() as int,
                    device.pips@.len() as int,
                ),
        ensures
            final(self).wf(),
            final(self).fits(device),
            !final(self).resident_valid,
            old(self).is_ready() ==> final(self).is_ready(),
            old(self).fits(device) ==> final(self).search == old(self).search,
            !old(self).resident_valid ==> final(self).unpriced(),
            result is None ==> !countable(
                constraint_slots(constraints, net_count as int),
                device.wires@.len() as int,
                device.pips@.len() as int,
            ),
            result matches Some(routes) ==> {
                &&& routes@.len() == net_count
                &&& forall|i: int|
                    0 <= i < net_count ==> #[trigger] routes@[i] == constraint_slot(constraints, i)
                &&& slots_fit(routes@, final(self).wire_count(), final(self).pip_count())
                &&& final(self).wires.counts(wire_sets(routes@))
                &&& final(self).pips.counts(pip_sets(routes@))
                &&& final(self).wires.history_at_most(0)
                &&& final(self).pips.history_at_most(0)
            },
    {
        if !self.matches(device) {
            *self = Self::new(device);
        }
        let ghost start = *self;
        let ghost search = self.search;
        self.wires.clear_history();
        self.pips.clear_history();
        proof {
            if self.resident_valid {
                assert(self.wires.counts(wire_sets(self.resident_routes@))) by {
                    assert forall|r: int| 0 <= r < self.wires.occupancy@.len() implies
                    #[trigger] self.wires.occupancy@[r] == users(
                        wire_sets(self.resident_routes@),
                        r,
                    ) by {
                        assert(start.wires.occupancy@[r] == users(
                            wire_sets(start.resident_routes@),
                            r,
                        ));
                    }
                }
                assert(self.pips.counts(pip_sets(self.resident_routes@))) by {
                    assert forall|r: int| 0 <= r < self.pips.occupancy@.len() implies
                    #[trigger] self.pips.occupancy@[r] == users(
                        pip_sets(self.resident_routes@),
                        r,
                    ) by {
                        assert(start.pips.occupancy@[r] == users(
                            pip_sets(start.resident_routes@),
                            r,
                        ));
                    }
                }
            }
        }
        if self.resident_valid && self.resident_routes.len() == net_count {
            if let Some(routes) = self.sync_routes(device, net_count, constraints) {
                return Some(routes);
            }
        }
        self.prepare(device);
        let mut index: usize = 0;
        while index < net_count
            invariant
                index <= net_count,
                self.wf(),
                self.fits(device),
                !self.resident_valid,
                self.search == search,
                forall|r: int|
                    0 <= r < device.wires@.len() ==> #[trigger] self.wires.blank(r),
                forall|r: int| 0 <= r < device.pips@.len() ==> #[trigger] self.pips.blank(r),
                self.resident_routes@.len() == index,
                forall|i: int| 0 <= i < index ==> #[trigger] self.resident_routes@[i] is None,
            decreases net_count - index,
        {
            let ghost earlier = *self;
            self.resident_routes.push(None);
            proof {
                assert forall|r: int| 0 <= r < device.wires@.len() implies #[trigger] self.wires.blank(
                    r,
                ) by {
                    assert(earlier.wires.blank(r));
                }
                assert forall|r: int| 0 <= r < device.pips@.len() implies #[trigger] self.pips.blank(
                    r,
                ) by {
                    assert(earlier.pips.blank(r));
                }
            }
            index = index + 1;
        }
        proof {
            self.lemma_empty_snapshot(device);
            assert forall|r: int| 0 <= r < self.wires.congestion@.len() implies #[trigger] self.wires.congestion@[r]
                == 0 by {
                assert(self.wires.blank(r));
            }
            assert forall|r: int| 0 <= r < self.pips.congestion@.len() implies #[trigger] self.pips.congestion@[r]
                == 0 by {
                assert(self.pips.blank(r));
            }
        }
        self.resident_valid = true;
        proof {
            assert(constraint_slots(constraints, net_count as int).len() == net_count);
        }
        self.sync_routes(device, net_count, constraints)
    }

    /// Gives every slot its immutable route; nothing where a counter is full.
    fn sync_routes(
        &mut self,
        device: &Device,
        net_count: usize,
        constraints: &RoutingConstraints,
    ) -> (result: Option<Vec<Option<Arc<NetRoute>>>>)
        requires
            old(self).wf(),
            old(self).fits(device),
            old(self).resident_valid,
            old(self).resident_routes@.len() == net_count,
            old(self).wires.history_at_most(0),
            old(self).pips.history_at_most(0),
            constraints.wf(),
            forall|n: NetId| #[trigger]
                constraints.routes@.contains_key(n) ==> n.0 < net_count && slot_fits(
                    Some(constraints.routes@[n]),
                    device.wires@.len() as int,
                    device.pips@.len() as int,
                ),
        ensures
            final(self).wf(),
            final(self).fits(device),
            !final(self).resident_valid,
            final(self).search == old(self).search,
            old(self).unpriced() ==> final(self).unpriced(),
            result is None && (forall|i: int|
                0 <= i < net_count ==> #[trigger] old(self).resident_routes@[i] is None)
                ==> !countable(
                constraint_slots(constraints, net_count as int),
                device.wires@.len() as int,
                device.pips@.len() as int,
            ),
            result matches Some(routes) ==> {
                &&& routes@.len() == net_count
                &&& forall|i: int|
                    0 <= i < net_count ==> #[trigger] routes@[i] == constraint_slot(constraints, i)
                &&& slots_fit(routes@, final(self).wire_count(), final(self).pip_count())
                &&& final(self).wires.counts(wire_sets(routes@))
                &&& final(self).pips.counts(pip_sets(routes@))
                &&& final(self).wires.history_at_most(0)
                &&& final(self).pips.history_at_most(0)
            },
    {
        let ghost search = self.search;
        let ghost begun = self.resident_routes@;
        let mut target: Vec<Option<Arc<NetRoute>>> = Vec::new();
        let mut index: usize = 0;
        while index < net_count
            invariant
                index <= net_count,
                self.wf(),
                self.fits(device),
                self.resident_valid,
                self.search == search,
                self.resident_routes@.len() == net_count,
                self.wires.history_at_most(0),
                self.pips.history_at_most(0),
                constraints.wf(),
                forall|n: NetId| #[trigger]
                    constraints.routes@.contains_key(n) ==> n.0 < net_count && slot_fits(
                        Some(constraints.routes@[n]),
                        device.wires@.len() as int,
                        device.pips@.len() as int,
                    ),
                target@.len() == index,
                forall|i: int|
                    0 <= i < index ==> #[trigger] target@[i] == constraint_slot(constraints, i),
                forall|i: int| 0 <= i < index ==> #[trigger] self.resident_routes@[i] == target@[i],
                begun == old(self).resident_routes@,
                search == old(self).search,
                forall|i: int|
                    index <= i < net_count ==> #[trigger] self.resident_routes@[i] == begun[i],
                old(self).unpriced() ==> self.unpriced(),
            decreases net_count - index,
        {
            let net = NetId(index);
            let slot = match constraints.routes.get(net) {
                Some(route) => Some(share(route)),
                None => None,
            };
            let copy = match &slot {
                Some(route) => Some(share(route)),
                None => None,
            };
            assert(slot == constraint_slot(constraints, index as int));
            assert(slot_fits(slot, self.wire_count(), self.pip_count()));
            let ghost before = *self;
            if !self.replace_resident(index, copy) {
                proof {
                    let whole = constraint_slots(constraints, net_count as int);
                    if forall|i: int| 0 <= i < net_count ==> #[trigger] begun[i] is None {
                        assert forall|i: int| 0 <= i < net_count implies
                        #[trigger] before.resident_routes@[i] is None
                            || before.resident_routes@[i] == whole[i] by {
                            if i < index {
                                assert(before.resident_routes@[i] == target@[i]);
                            } else {
                                assert(before.resident_routes@[i] == begun[i]);
                            }
                        }
                        lemma_not_countable(
                            before.resident_routes@,
                            whole,
                            index as int,
                            device.wires@.len() as int,
                            device.pips@.len() as int,
                        );
                    }
                }
                return None;
            }
            proof {
                assert(self.wires.history == before.wires.history);
                assert(self.pips.history == before.pips.history);
                assert forall|r: int| 0 <= r < self.wires.history@.len() implies #[trigger] self.wires.history@[r]
                    <= 0 by {
                    assert(before.wires.history@[r] <= 0);
                }
                assert forall|r: int| 0 <= r < self.pips.history@.len() implies #[trigger] self.pips.history@[r]
                    <= 0 by {
                    assert(before.pips.history@[r] <= 0);
                }
            }
            target.push(slot);
            index = index + 1;
        }
        // Until negotiation succeeds, the occupancy has no committed snapshot.
        self.resident_valid = false;
        assert(target@ =~= self.resident_routes@);
        Some(target)
    }

    /// Without routes nothing is used.
    proof fn lemma_empty_snapshot(&self, device: &Device)
        requires
            self.wf(),
            self.fits(device),
            forall|r: int| 0 <= r < device.wires@.len() ==> #[trigger] self.wires.blank(r),
            forall|r: int| 0 <= r < device.pips@.len() ==> #[trigger] self.pips.blank(r),
            forall|i: int|
                0 <= i < self.resident_routes@.len() ==> #[trigger] self.resident_routes@[i] is None,
        ensures
            slots_fit(self.resident_routes@, self.wire_count(), self.pip_count()),
            self.wires.counts(wire_sets(self.resident_routes@)),
            self.pips.counts(pip_sets(self.resident_routes@)),
            self.wires.history_at_most(0),
            self.pips.history_at_most(0),
    {
        let wires = wire_sets(self.resident_routes@);
        let pips = pip_sets(self.resident_routes@);
        assert forall|i: int| 0 <= i < wires.len() implies #[trigger] wires[i]
            == Set::<int>::empty() by {
            assert(self.resident_routes@[i] is None);
        }
        assert forall|i: int| 0 <= i < pips.len() implies #[trigger] pips[i]
            == Set::<int>::empty() by {
            assert(self.resident_routes@[i] is None);
        }
        assert forall|r: int| 0 <= r < self.wires.occupancy@.len() implies #[trigger] self.wires.occupancy@[r]
            == users(wires, r) by {
            assert(self.wires.blank(r));
            lemma_users_of_nothing(wires, r);
        }
        assert forall|r: int| 0 <= r < self.pips.occupancy@.len() implies #[trigger] self.pips.occupancy@[r]
            == users(pips, r) by {
            assert(self.pips.blank(r));
            lemma_users_of_nothing(pips, r);
        }
        assert forall|r: int| 0 <= r < self.wires.history@.len() implies #[trigger] self.wires.history@[r]
            <= 0 by {
            assert(self.wires.blank(r));
        }
        assert forall|r: int| 0 <= r < self.pips.history@.len() implies #[trigger] self.pips.history@[r]
            <= 0 by {
            assert(self.pips.blank(r));
        }
    }

    /// Keeps the routes that the occupancy counts as the snapshot.
    pub fn commit_routes(&mut self, routes: &Vec<Arc<NetRoute>>)
        requires
            old(self).wf(),
            slots_fit(filled(routes@), old(self).wire_count(), old(self).pip_count()),
            old(self).wires.counts(wire_sets(filled(routes@))),
            old(self).pips.counts(pip_sets(filled(routes@))),
        ensures
            final(self).wf(),
            final(self).resident_valid,
            final(self).resident_routes@ == filled(routes@),
            *final(self) == (RoutingWorkspace {
                resident_routes: final(self).resident_routes,
                resident_valid: true,
                ..*old(self)
            }),
    {
        let mut slots: Vec<Option<Arc<NetRoute>>> = Vec::new();
        let mut index: usize = 0;
        while index < routes.len()
            invariant
                index <= routes@.len(),
                slots@.len() == index,
                forall|i: int| 0 <= i < index ==> #[trigger] slots@[i] == Some(routes@[i]),
            decreases routes@.len() - index,
        {
            slots.push(Some(share(&routes[index])));
            index = index + 1;
        }
        assert(slots@ =~= filled(routes@));
        self.resident_routes = slots;
        self.resident_valid = true;
    }
}

/// Immutable route of one net.
pub open spec fn constraint_slot(constraints: &RoutingConstraints, index: int) -> Option<
    Arc<NetRoute>,
> {
    if constraints.routes@.contains_key(NetId(index as usize)) {
        Some(constraints.routes@[NetId(index as usize)])
    } else {
        None
    }
}

/// Immutable route of every net.
pub open spec fn constraint_slots(constraints: &RoutingConstraints, count: int) -> Seq<
    Option<Arc<NetRoute>>,
> {
    Seq::new(count as nat, |i: int| constraint_slot(constraints, i))
}

/// Slots that each hold one route.
pub open spec fn filled(routes: Seq<Arc<NetRoute>>) -> Seq<Option<Arc<NetRoute>>> {
    routes.map_values(|route: Arc<NetRoute>| Some(route))
}

} // verus!
