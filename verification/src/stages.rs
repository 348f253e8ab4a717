//! Routes and owners of a negotiation, change by change.

use std::sync::Arc;

use vstd::prelude::*;

use crate::course::slot_released;
use crate::device::Device;
use crate::model::{Connection, NetId};
use crate::occupancy::{pip_sets, slot_pips, slot_wires, wire_sets};
use crate::ordered::increasing;
use crate::owners::{contested, first_user, survivor, OwnerIndex, ResourceClaim, ResourceClass};
use crate::ownership::{are_claimed, are_released};
use crate::route::NetRoute;
use crate::workspace::RoutingWorkspace;

verus! {

/// Routes with the owners of their resources.
pub struct Stage {
    /// Route of each net.
    pub routes: Seq<Option<Arc<NetRoute>>>,
    /// Owners of the wires.
    pub wires: OwnerIndex,
    /// Owners of the PIPs.
    pub pips: OwnerIndex,
}

/// The workspace counts the routes on the device.
pub open spec fn is_counted(
    device: &Device,
    routes: Seq<Option<Arc<NetRoute>>>,
    room: RoutingWorkspace,
) -> bool {
    &&& room.wf()
    &&& room.fits(device)
    &&& room.wires.counts(wire_sets(routes))
    &&& room.pips.counts(pip_sets(routes))
}

/// One net gives its dirty connections up.
pub open spec fn is_release_step(
    device: &Device,
    dirty: Set<Connection>,
    net: usize,
    before: Stage,
    after: Stage,
) -> bool {
    let earlier = before.routes[net as int];
    let later = after.routes[net as int];
    &&& net < before.routes.len()
    &&& after.routes == before.routes.update(net as int, later)
    &&& slot_released(earlier, dirty, later)
    &&& exists|room: RoutingWorkspace|
        {
            &&& #[trigger] is_counted(device, after.routes, room)
            &&& are_released(
                before.wires,
                slot_wires(earlier).difference(slot_wires(later)),
                NetId(net),
                room.wires,
                after.wires,
            )
            &&& are_released(
                before.pips,
                slot_pips(earlier).difference(slot_pips(later)),
                NetId(net),
                room.pips,
                after.pips,
            )
        }
}

/// One step of the release.
pub open spec fn is_release_at(
    device: &Device,
    dirty: Set<Connection>,
    nets: Seq<usize>,
    stages: Seq<Stage>,
    at: int,
) -> bool {
    is_release_step(device, dirty, nets[at], stages[at], stages[at + 1])
}

/// The dirty nets are released in turn.
pub open spec fn is_ripup(
    device: &Device,
    dirty: Set<Connection>,
    nets: Seq<usize>,
    stages: Seq<Stage>,
) -> bool {
    &&& 0 < stages.len() <= nets.len() + 1
    &&& forall|i: int|
        0 <= i < stages.len() - 1 ==> #[trigger] is_release_at(device, dirty, nets, stages, i)
}

/// Every dirty net is released, the least first.
pub open spec fn rips_up(
    device: &Device,
    dirty: Set<Connection>,
    before: Stage,
    after: Stage,
) -> bool {
    exists|nets: Seq<usize>, stages: Seq<Stage>|
        {
            &&& #[trigger] is_ripup(device, dirty, nets, stages)
            &&& increasing(nets)
            &&& nets.to_set() == crate::conflicts::dirty_net_set(dirty)
            &&& stages.len() == nets.len() + 1
            &&& stages[0] == before
            &&& stages.last() == after
        }
}

/// One more net is released.
pub proof fn lemma_ripup_grows(
    device: &Device,
    dirty: Set<Connection>,
    nets: Seq<usize>,
    stages: Seq<Stage>,
    next: Stage,
)
    requires
        is_ripup(device, dirty, nets, stages),
        stages.len() <= nets.len(),
        is_release_step(device, dirty, nets[stages.len() - 1], stages.last(), next),
    ensures
        is_ripup(device, dirty, nets, stages.push(next)),
{
    let longer = stages.push(next);
    assert forall|i: int| 0 <= i < longer.len() - 1 implies #[trigger] is_release_at(
        device,
        dirty,
        nets,
        longer,
        i,
    ) by {
        if i < stages.len() - 1 {
            assert(is_release_at(device, dirty, nets, stages, i));
            assert(longer[i] == stages[i] && longer[i + 1] == stages[i + 1]);
        } else {
            assert(longer[i] == stages.last());
        }
    }
}

/// Every stale resource has its first remaining user as owner.
pub open spec fn is_repaired(
    before: OwnerIndex,
    routes: Seq<Option<Arc<NetRoute>>>,
    class: ResourceClass,
    after: OwnerIndex,
) -> bool {
    &&& after.wf()
    &&& after.conflicts@ == before.conflicts@
    &&& after.stale@ == Set::<usize>::empty()
    &&& forall|r: usize| #[trigger]
        after.owners@.contains_key(r) <==> before.owners@.contains_key(r) || (
        before.stale@.contains(r) && first_user(routes, class, r, 0) is Some)
    &&& forall|r: usize| #[trigger]
        after.owners@.contains_key(r) ==> after.owners@[r] == if before.stale@.contains(r)
            && first_user(routes, class, r, 0) is Some {
            first_user(routes, class, r, 0)->0
        } else {
            before.owners@[r]
        }
}

/// Both owner indices are repaired, and the routes stay.
pub open spec fn repairs(before: Stage, after: Stage) -> bool {
    &&& after.routes == before.routes
    &&& is_repaired(before.wires, before.routes, ResourceClass::Wire, after.wires)
    &&& is_repaired(before.pips, before.routes, ResourceClass::Pip, after.pips)
}

/// One net takes the new resources of its route.
pub open spec fn claims(device: &Device, net: usize, before: Stage, after: Stage) -> bool {
    let earlier = before.routes[net as int];
    let later = after.routes[net as int];
    &&& after.wires.wf()
    &&& after.pips.wf()
    &&& exists|room: RoutingWorkspace|
        {
            &&& #[trigger] is_counted(device, after.routes, room)
            &&& are_claimed(
                before.wires,
                slot_wires(later).difference(slot_wires(earlier)),
                NetId(net),
                room.wires,
                after.wires,
            )
            &&& are_claimed(
                before.pips,
                slot_pips(later).difference(slot_pips(earlier)),
                NetId(net),
                room.pips,
                after.pips,
            )
        }
}

/// Every contested resource goes to the first contender that keeps using it.
pub open spec fn is_resolved(
    before: OwnerIndex,
    routes: Seq<Option<Arc<NetRoute>>>,
    dirty: Set<Connection>,
    class: ResourceClass,
    after: OwnerIndex,
) -> bool {
    &&& after.wf()
    &&& after.stale@ == before.stale@
    &&& after.conflicts@ == Set::<ResourceClaim>::empty()
    &&& forall|r: usize| #[trigger]
        after.owners@.contains_key(r) <==> if contested(before.conflicts.ordered(), r) {
            survivor(before.conflicts.ordered(), routes, dirty, class, r) is Some
        } else {
            before.owners@.contains_key(r)
        }
    &&& forall|r: usize| #[trigger]
        after.owners@.contains_key(r) ==> after.owners@[r] == if contested(
            before.conflicts.ordered(),
            r,
        ) {
            survivor(before.conflicts.ordered(), routes, dirty, class, r)->0
        } else {
            before.owners@[r]
        }
}

} // verus!
