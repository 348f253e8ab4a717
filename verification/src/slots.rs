//! Exchange of one net's route in the occupancy.

use std::sync::Arc;

use vstd::prelude::*;

use crate::model::{PipId, WireId};
use crate::occupancy::{
    kept_indices, names_range, pip_sets, slot_pips, slot_wires, users, wire_sets,
};
use crate::ordered::{OrderedMap, OrderedSet};
use crate::route::NetRoute;
use crate::workspace::{lemma_sets_update, slot_fits, RoutingWorkspace};

verus! {

/// Wires of a slot.
pub(crate) fn wire_table(slot: &Option<Arc<NetRoute>>) -> (result: Option<&OrderedMap<WireId, u32>>)
    ensures
        kept_indices(result) == slot_wires(*slot),
        *slot matches Some(route) ==> result == Some(&route.wire_refs),
        *slot is None ==> result is None,
{
    match slot {
        Some(route) => Some(&route.wire_refs),
        None => None,
    }
}

/// PIPs of a slot.
pub(crate) fn pip_table(slot: &Option<Arc<NetRoute>>) -> (result: Option<&OrderedMap<PipId, u32>>)
    ensures
        kept_indices(result) == slot_pips(*slot),
        *slot matches Some(route) ==> result == Some(&route.pip_refs),
        *slot is None ==> result is None,
{
    match slot {
        Some(route) => Some(&route.pip_refs),
        None => None,
    }
}

/// Some resource that only the later slot uses has a full counter.
pub open spec fn counter_full(
    routes: Seq<Option<Arc<NetRoute>>>,
    index: int,
    wires: int,
    pips: int,
) -> bool {
    ||| exists|r: int|
        0 <= r < wires && #[trigger] users(wire_sets(routes), r) >= u16::MAX && !slot_wires(
            routes[index],
        ).contains(r)
    ||| exists|r: int|
        0 <= r < pips && #[trigger] users(pip_sets(routes), r) >= u16::MAX && !slot_pips(
            routes[index],
        ).contains(r)
}

/// The later slot enters a resource whose counter is full.
pub open spec fn enters_full(
    routes: Seq<Option<Arc<NetRoute>>>,
    index: int,
    later: Option<Arc<NetRoute>>,
) -> bool {
    ||| exists|r: int|
        #[trigger] slot_wires(later).contains(r) && users(wire_sets(routes), r) >= u16::MAX
            && !slot_wires(routes[index]).contains(r)
    ||| exists|r: int|
        #[trigger] slot_pips(later).contains(r) && users(pip_sets(routes), r) >= u16::MAX
            && !slot_pips(routes[index]).contains(r)
}

impl RoutingWorkspace {
    /// The occupancy counts the routes, and the trackers hold what is overused.
    pub open spec fn carries(
        &self,
        routes: Seq<Option<Arc<NetRoute>>>,
        overused_wires: &OrderedSet<usize>,
        overused_pips: &OrderedSet<usize>,
    ) -> bool {
        &&& self.wires.counts(wire_sets(routes))
        &&& self.pips.counts(pip_sets(routes))
        &&& self.wires.tracks(overused_wires)
        &&& self.pips.tracks(overused_pips)
    }

    /// Exchanges the route of one slot in the occupancy; false where a counter is full.
    pub fn swap_slot(
        &mut self,
        earlier: &Option<Arc<NetRoute>>,
        later: &Option<Arc<NetRoute>>,
        overused_wires: &mut OrderedSet<usize>,
        overused_pips: &mut OrderedSet<usize>,
        Ghost(routes): Ghost<Seq<Option<Arc<NetRoute>>>>,
        Ghost(index): Ghost<int>,
    ) -> (result: bool)
        requires
            old(self).wf(),
            !old(self).resident_valid,
            old(self).carries(routes, old(overused_wires), old(overused_pips)),
            0 <= index < routes.len(),
            routes[index] == *earlier,
            slot_fits(*earlier, old(self).wire_count(), old(self).pip_count()),
            slot_fits(*later, old(self).wire_count(), old(self).pip_count()),
        ensures
            final(self).wf(),
            *final(self) == (RoutingWorkspace {
                wires: final(self).wires,
                pips: final(self).pips,
                ..*old(self)
            }),
            final(self).wires.capacities == old(self).wires.capacities,
            final(self).pips.capacities == old(self).pips.capacities,
            final(self).wires.history == old(self).wires.history,
            final(self).pips.history == old(self).pips.history,
            final(self).wires.congestion == old(self).wires.congestion,
            final(self).pips.congestion == old(self).pips.congestion,
            result ==> final(self).carries(
                routes.update(index, *later),
                final(overused_wires),
                final(overused_pips),
            ),
            !result ==> counter_full(routes, index, old(self).wire_count(), old(self).pip_count()),
            !result ==> enters_full(routes, index, *later),
            slot_wires(*later).subset_of(slot_wires(*earlier)) && slot_pips(*later).subset_of(
                slot_pips(*earlier),
            ) ==> result,
    {
        let ghost before = *self;
        let earlier_wires = wire_table(earlier);
        let later_wires = wire_table(later);
        let earlier_pips = pip_table(earlier);
        let later_pips = pip_table(later);
        proof {
            lemma_sets_update(routes, index, *later);
            lemma_wire_range(earlier_wires, *earlier, self.wire_count(), self.pip_count());
            lemma_wire_range(later_wires, *later, self.wire_count(), self.pip_count());
            lemma_pip_range(earlier_pips, *earlier, self.wire_count(), self.pip_count());
            lemma_pip_range(later_pips, *later, self.wire_count(), self.pip_count());
            assert(wire_sets(routes)[index] == slot_wires(*earlier));
            assert(pip_sets(routes)[index] == slot_pips(*earlier));
        }
        if !self.wires.recount(
            earlier_wires,
            later_wires,
            Ghost(wire_sets(routes)),
            Ghost(index),
        ) {
            proof {
                let r = choose|r: int|
                    {
                        &&& #[trigger] kept_indices(later_wires).contains(r)
                        &&& 0 <= r < before.wires.capacities@.len()
                        &&& users(wire_sets(routes), r) >= u16::MAX
                        &&& !wire_sets(routes)[index].contains(r)
                    };
                assert(slot_wires(*later).contains(r));
            }
            return false;
        }
        if !self.pips.recount(earlier_pips, later_pips, Ghost(pip_sets(routes)), Ghost(index)) {
            proof {
                let r = choose|r: int|
                    {
                        &&& #[trigger] kept_indices(later_pips).contains(r)
                        &&& 0 <= r < before.pips.capacities@.len()
                        &&& users(pip_sets(routes), r) >= u16::MAX
                        &&& !pip_sets(routes)[index].contains(r)
                    };
                assert(slot_pips(*later).contains(r));
            }
            return false;
        }
        self.wires.follow(earlier_wires, later_wires, overused_wires, Ghost(before.wires));
        self.pips.follow(earlier_pips, later_pips, overused_pips, Ghost(before.pips));
        true
    }
}

/// The wires of a slot that fits are on the device.
proof fn lemma_wire_range(
    table: Option<&OrderedMap<WireId, u32>>,
    slot: Option<Arc<NetRoute>>,
    wires: int,
    pips: int,
)
    requires
        slot_fits(slot, wires, pips),
        kept_indices(table) == slot_wires(slot),
    ensures
        names_range(table, wires),
{
    assert forall|r: int| #[trigger] kept_indices(table).contains(r) implies 0 <= r < wires by {
        assert(slot_wires(slot).contains(r));
    }
}

/// The PIPs of a slot that fits are on the device.
proof fn lemma_pip_range(
    table: Option<&OrderedMap<PipId, u32>>,
    slot: Option<Arc<NetRoute>>,
    wires: int,
    pips: int,
)
    requires
        slot_fits(slot, wires, pips),
        kept_indices(table) == slot_pips(slot),
    ensures
        names_range(table, pips),
{
    assert forall|r: int| #[trigger] kept_indices(table).contains(r) implies 0 <= r < pips by {
        assert(slot_pips(slot).contains(r));
    }
}

} // verus!
