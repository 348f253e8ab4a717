//! Choice of what to route next.

use std::sync::Arc;

use vstd::prelude::*;

use crate::cycles::CongestionObjective;
use crate::model::{CellPinId, Connection, NetId, PipId, WireId};
use crate::negotiation::Negotiation;
use crate::net_routing::{arc_fits, driver_wire};
use crate::occupancy::ResourceTable;
use crate::ordered::OrderedSet;
use crate::owners::{ResourceClaim, ResourceClass};
use crate::release::{all_movable, net_is_dirty};
use crate::route::NetRoute;
use crate::trial::Trial;
use crate::victims::{
    arc_owns, claimed, contested_connections, in_range, is_victim, overused_connections, select_connection_victims, uses,
    ConnectionOwner,
};
use crate::workspace::RoutingWorkspace;

verus! {

/// Indices of the nets with a connection to be routed.
pub open spec fn dirty_net_set(dirty: Set<Connection>) -> Set<usize> {
    Set::new(|n: usize| net_is_dirty(dirty, NetId(n)))
}

/// Indices of the nets with a connection to be routed.
pub fn dirty_nets(dirty: &OrderedSet<Connection>) -> (result: OrderedSet<usize>)
    ensures
        result.wf(),
        result@ == dirty_net_set(dirty@),
{
    let mut result: OrderedSet<usize> = OrderedSet::new();
    let mut index: usize = 0;
    let ghost list = dirty.ordered();
    while index < dirty.len()
        invariant
            index <= list.len(),
            list == dirty.ordered(),
            result.wf(),
            forall|n: usize| #[trigger]
                result@.contains(n) <==> exists|i: int|
                    0 <= i < index && (#[trigger] list[i]).net.0 == n,
        decreases list.len() - index,
    {
        let net: usize = dirty.at(index).net.0;
        let ghost before = result@;
        result.insert(net);
        proof {
            assert forall|n: usize| #[trigger] result@.contains(n) <==> exists|i: int|
                0 <= i < index + 1 && (#[trigger] list[i]).net.0 == n by {
                assert(before.contains(n) <==> exists|i: int|
                    0 <= i < index && (#[trigger] list[i]).net.0 == n);
                if before.contains(n) {
                    let i = choose|i: int| 0 <= i < index && (#[trigger] list[i]).net.0 == n;
                    assert(list[i].net.0 == n);
                }
                if n == net {
                    assert(list[index as int].net.0 == n);
                }
                if exists|i: int| 0 <= i < index + 1 && (#[trigger] list[i]).net.0 == n {
                    let i = choose|i: int| 0 <= i < index + 1 && (#[trigger] list[i]).net.0 == n;
                    if i < index {
                        assert(list[i].net.0 == n);
                    }
                }
            }
        }
        index = index + 1;
    }
    proof {
        assert forall|n: usize| result@.contains(n) <==> net_is_dirty(dirty@, NetId(n)) by {
            if result@.contains(n) {
                let i = choose|i: int| 0 <= i < index && (#[trigger] list[i]).net.0 == n;
                assert(list.contains(list[i]));
                dirty.membership(list[i]);
                assert(list[i] == (Connection { net: NetId(n), sink: list[i].sink }));
            }
            if net_is_dirty(dirty@, NetId(n)) {
                let sink = choose|sink: CellPinId| #[trigger]
                    dirty@.contains(Connection { net: NetId(n), sink });
                let c = Connection { net: NetId(n), sink };
                dirty.membership(c);
                let i = list.index_of(c);
                assert(list[i].net.0 == n);
            }
        }
        assert(result@ =~= dirty_net_set(dirty@));
    }
    result
}

/// The connection is one of the design that its slot does not reach.
pub open spec fn is_unrouted(
    trial: Trial<'_>,
    routes: Seq<Option<Arc<NetRoute>>>,
    connection: Connection,
) -> bool {
    &&& connection.net.0 < trial.net_count()
    &&& trial.graph.design.nets@[connection.net.0 as int].sinks@.contains(connection.sink)
    &&& !trial.slot_reaches(routes[connection.net.0 as int], connection.sink)
}

/// Every connection that no route reaches.
pub(crate) fn unrouted_connections(trial: &Trial<'_>, routes: &Vec<Option<Arc<NetRoute>>>) -> (result: OrderedSet<
    Connection,
>)
    requires
        routes@.len() == trial.net_count(),
    ensures
        result.wf(),
        forall|c: Connection| #[trigger]
            result@.contains(c) <==> is_unrouted(*trial, routes@, c),
{
    let design = trial.graph.design();
    let mut result: OrderedSet<Connection> = OrderedSet::new();
    let mut index: usize = 0;
    while index < design.nets.len()
        invariant
            index <= design.nets@.len(),
            design == trial.graph.design,
            routes@.len() == design.nets@.len(),
            result.wf(),
            forall|c: Connection| #[trigger]
                result@.contains(c) <==> c.net.0 < index && is_unrouted(*trial, routes@, c),
        decreases design.nets@.len() - index,
    {
        let sinks = &design.nets[index].sinks;
        let ghost before = result@;
        let mut at: usize = 0;
        while at < sinks.len()
            invariant
                at <= sinks@.len(),
                index < design.nets@.len(),
                design == trial.graph.design,
                sinks@ == design.nets@[index as int].sinks@,
                routes@.len() == design.nets@.len(),
                result.wf(),
                forall|c: Connection| #[trigger]
                    result@.contains(c) <==> before.contains(c) || (c.net.0 == index
                        && sinks@.take(at as int).contains(c.sink) && !trial.slot_reaches(
                        routes@[index as int],
                        c.sink,
                    )),
            decreases sinks@.len() - at,
        {
            let sink = sinks[at];
            let ghost inner = result@;
            let reached = match &routes[index] {
                None => false,
                Some(route) => route.arc(sink).is_some(),
            };
            assert(reached == trial.slot_reaches(routes@[index as int], sink));
            if !reached {
                result.insert(Connection { net: NetId(index), sink });
            }
            proof {
                let shorter = sinks@.take(at as int);
                let longer = sinks@.take(at + 1);
                assert forall|c: Connection| #[trigger] result@.contains(c) <==> before.contains(c)
                    || (c.net.0 == index && longer.contains(c.sink) && !trial.slot_reaches(
                    routes@[index as int],
                    c.sink,
                )) by {
                    assert(inner.contains(c) <==> before.contains(c) || (c.net.0 == index
                        && shorter.contains(c.sink) && !trial.slot_reaches(
                        routes@[index as int],
                        c.sink,
                    )));
                    if shorter.contains(c.sink) {
                        let i = shorter.index_of(c.sink);
                        assert(longer[i] == c.sink);
                    }
                    assert(longer[at as int] == sink);
                    if longer.contains(c.sink) && c.sink != sink {
                        let i = longer.index_of(c.sink);
                        assert(shorter[i] == c.sink);
                    }
                }
            }
            at = at + 1;
        }
        proof {
            assert(sinks@.take(at as int) =~= sinks@);
        }
        index = index + 1;
    }
    result
}

/// Sum of the users above capacity of some resources.
pub open spec fn excess_total(occupancy: Seq<u16>, capacities: Seq<u16>, list: Seq<usize>) -> int
    decreases list.len(),
{
    if list.len() == 0 {
        0
    } else {
        excess_total(occupancy, capacities, list.drop_last()) + (occupancy[list.last() as int]
            - capacities[list.last() as int])
    }
}

/// Sum of the users above capacity of the overused resources of one class.
fn total_excess(table: &ResourceTable, overused: &OrderedSet<usize>) -> (result: u64)
    requires
        table.wf(table.capacities@.len() as int),
        table.tracks(overused),
    ensures
        result == crate::cost::clip_u64(
            excess_total(table.occupancy@, table.capacities@, overused.ordered()),
        ),
{
    let ghost list = overused.ordered();
    let mut total: u64 = 0;
    let mut index: usize = 0;
    while index < overused.len()
        invariant
            index <= list.len(),
            list == overused.ordered(),
            table.wf(table.capacities@.len() as int),
            table.tracks(overused),
            total == crate::cost::clip_u64(
                excess_total(table.occupancy@, table.capacities@, list.take(index as int)),
            ),
            excess_total(table.occupancy@, table.capacities@, list.take(index as int)) >= 0,
        decreases list.len() - index,
    {
        let resource: usize = overused.at(index);
        assert(overused@.contains(resource));
        let excess: u16 = table.occupancy[resource] - table.capacities[resource];
        total = total.saturating_add(excess as u64);
        proof {
            assert(list.take(index + 1).drop_last() =~= list.take(index as int));
            assert(list.take(index + 1).last() == resource);
        }
        index = index + 1;
    }
    assert(list.take(index as int) =~= list);
    total
}

/// Excess users and overused resources of both classes.
pub(crate) fn routing_congestion_objective(
    workspace: &RoutingWorkspace,
    overused_wires: &OrderedSet<usize>,
    overused_pips: &OrderedSet<usize>,
) -> (result: CongestionObjective)
    requires
        workspace.wf(),
        workspace.wires.capacities@.len() == workspace.wire_count(),
        workspace.wires.tracks(overused_wires),
        workspace.pips.tracks(overused_pips),
    ensures
        result.excess == crate::cost::clip_u64(
            crate::cost::clip_u64(
                excess_total(
                    workspace.wires.occupancy@,
                    workspace.wires.capacities@,
                    overused_wires.ordered(),
                ),
            ) + crate::cost::clip_u64(
                excess_total(
                    workspace.pips.occupancy@,
                    workspace.pips.capacities@,
                    overused_pips.ordered(),
                ),
            ),
        ),
        result.resources == if overused_wires.ordered().len() + overused_pips.ordered().len()
            > usize::MAX {
            usize::MAX as nat
        } else {
            overused_wires.ordered().len() + overused_pips.ordered().len()
        },
{
    CongestionObjective {
        excess: total_excess(&workspace.wires, overused_wires).saturating_add(
            total_excess(&workspace.pips, overused_pips),
        ),
        resources: overused_wires.len().saturating_add(overused_pips.len()),
    }
}

/// Every listed resource can carry one net alone.
fn all_single(capacities: &Vec<u16>, overused: &OrderedSet<usize>) -> (result: bool)
    requires
        forall|r: usize| #[trigger] overused@.contains(r) ==> r < capacities@.len(),
    ensures
        result == forall|r: usize| #[trigger]
            overused@.contains(r) ==> capacities@[r as int] == 1,
{
    let mut index: usize = 0;
    while index < overused.len()
        invariant
            index <= overused.ordered().len(),
            forall|r: usize| #[trigger] overused@.contains(r) ==> r < capacities@.len(),
            forall|i: int|
                0 <= i < index ==> capacities@[(#[trigger] overused.ordered()[i]) as int] == 1,
        decreases overused.ordered().len() - index,
    {
        let resource: usize = overused.at(index);
        if capacities[resource] != 1 {
            return false;
        }
        index = index + 1;
    }
    proof {
        assert forall|r: usize| #[trigger] overused@.contains(r) implies capacities@[r as int]
            == 1 by {
            overused.membership(r);
            let i = overused.ordered().index_of(r);
            assert(overused.ordered()[i] == r);
        }
    }
    true
}

/// The connections are movable ones of the design's nets.
pub open spec fn dirty_ok(trial: Trial<'_>, dirty: Set<Connection>) -> bool {
    &&& all_movable(trial.constraints, dirty)
    &&& forall|c: Connection| #[trigger] dirty.contains(c) ==> c.net.0 < trial.net_count()
}

impl Negotiation {
    /// Routes of the design's nets pass resources of the device.
    proof fn lemma_in_range(&self, workspace: RoutingWorkspace, trial: Trial<'_>)
        requires
            trial.wf(),
            self.balanced(workspace, trial),
        ensures
            in_range(self.routes@, ResourceClass::Wire, workspace.wire_count()),
            in_range(self.routes@, ResourceClass::Pip, workspace.pip_count()),
    {
        let routes = self.routes@;
        let device = trial.graph.device;
        assert forall|i: int, k: int, r: int|
            #![trigger crate::victims::arc_resources((routes[i]->0).arcs@[k], ResourceClass::Wire)[r]]
            0 <= i < routes.len() && routes[i] is Some && 0 <= k < (routes[i]->0).arcs@.len() && 0
                <= r < crate::victims::arc_resources(
                (routes[i]->0).arcs@[k],
                ResourceClass::Wire,
            ).len() implies crate::victims::arc_resources(
            (routes[i]->0).arcs@[k],
            ResourceClass::Wire,
        )[r] < workspace.wire_count() by {
            self.lemma_arc_in_range(trial, i, k);
            let arc = (routes[i]->0).arcs@[k];
            assert(arc.wires@[r].0 < device.wires@.len());
        }
        assert forall|i: int, k: int, r: int|
            #![trigger crate::victims::arc_resources((routes[i]->0).arcs@[k], ResourceClass::Pip)[r]]
            0 <= i < routes.len() && routes[i] is Some && 0 <= k < (routes[i]->0).arcs@.len() && 0
                <= r < crate::victims::arc_resources(
                (routes[i]->0).arcs@[k],
                ResourceClass::Pip,
            ).len() implies crate::victims::arc_resources(
            (routes[i]->0).arcs@[k],
            ResourceClass::Pip,
        )[r] < workspace.pip_count() by {
            self.lemma_arc_in_range(trial, i, k);
            let arc = (routes[i]->0).arcs@[k];
            assert(arc.pips@[r].0 < device.pips@.len());
        }
    }

    /// One arc passes resources of the device.
    proof fn lemma_arc_in_range(&self, trial: Trial<'_>, slot: int, index: int)
        requires
            trial.wf(),
            trial.slots_ok(self.routes@),
            0 <= slot < self.routes@.len(),
            self.routes@[slot] is Some,
            0 <= index < (self.routes@[slot]->0).arcs@.len(),
        ensures
            forall|r: int|
                0 <= r < (self.routes@[slot]->0).arcs@[index].wires@.len() ==> (
                #[trigger] (self.routes@[slot]->0).arcs@[index].wires@[r]).0
                    < trial.graph.device.wires@.len(),
            forall|r: int|
                0 <= r < (self.routes@[slot]->0).arcs@[index].pips@.len() ==> (
                #[trigger] (self.routes@[slot]->0).arcs@[index].pips@[r]).0
                    < trial.graph.device.pips@.len(),
            (self.routes@[slot]->0).net.0 == slot,
    {
        let route = self.routes@[slot]->0;
        assert(self.routes.len() == self.routes@.len());
        assert(trial.slot_ok(slot, self.routes@[slot]));
        let net = NetId(slot as usize);
        let driver = driver_wire(trial.graph, trial.placement, net)->0;
        crate::net_state::lemma_pin_wire_range(
            trial.graph,
            trial.placement,
            trial.graph.design.nets@[slot].driver,
        );
        assert(arc_fits(trial.graph, trial.placement, net, driver, route.arcs@[index]));
        crate::net_state::lemma_path_in_range(trial.graph.device, driver, route.arcs@[index]);
    }

    /// Every overused resource can carry one net alone.
    pub open spec fn all_overuse_is_single(&self, workspace: RoutingWorkspace) -> bool {
        &&& forall|r: usize| #[trigger]
            self.overused_wires@.contains(r) ==> workspace.wires.capacities@[r as int] == 1
        &&& forall|r: usize| #[trigger]
            self.overused_pips@.contains(r) ==> workspace.pips.capacities@[r as int] == 1
    }

    /// Connections on contested resources of one class: those of the indexed
    /// contenders where every overused resource carries one net alone, and
    /// otherwise those of every route.
    pub open spec fn records(&self, workspace: RoutingWorkspace, class: ResourceClass) -> Set<
        ConnectionOwner,
    > {
        let table = match class {
            ResourceClass::Wire => workspace.wires,
            ResourceClass::Pip => workspace.pips,
        };
        let owners = match class {
            ResourceClass::Wire => workspace.wire_owners,
            ResourceClass::Pip => workspace.pip_owners,
        };
        if self.all_overuse_is_single(workspace) {
            Set::new(
                |c: ConnectionOwner|
                    owners.conflicts@.contains(
                        ResourceClaim { resource: c.resource, net: c.net },
                    ) && claimed(self.routes@, class, c),
            )
        } else {
            Set::new(
                |c: ConnectionOwner|
                    c.resource < table.capacities@.len() && table.occupancy@[c.resource as int]
                        > table.capacities@[c.resource as int] && uses(self.routes@, class, c),
            )
        }
    }

    /// Chooses the connections to be routed again.
    pub fn next_dirty(&self, trial: &Trial<'_>, workspace: &RoutingWorkspace) -> (result: OrderedSet<
        Connection,
    >)
        requires
            trial.wf(),
            self.balanced(*workspace, *trial),
        ensures
            result.wf(),
            dirty_ok(*trial, result@),
            forall|c: Connection| #[trigger]
                result@.contains(c) <==> is_victim(
                    self.records(*workspace, ResourceClass::Wire),
                    workspace.wires.capacities@,
                    trial.constraints,
                    trial.costs,
                    c,
                ) || is_victim(
                    self.records(*workspace, ResourceClass::Pip),
                    workspace.pips.capacities@,
                    trial.constraints,
                    trial.costs,
                    c,
                ),
    {
        proof {
            self.lemma_in_range(*workspace, *trial);
        }
        let mut dirty: OrderedSet<Connection> = OrderedSet::new();
        let single = all_single(&workspace.wires.capacities, &self.overused_wires) && all_single(
            &workspace.pips.capacities,
            &self.overused_pips,
        );
        let wires = if single {
            contested_connections(
                &self.routes,
                ResourceClass::Wire,
                &workspace.wire_owners.conflicts,
            )
        } else {
            overused_connections(
                &self.routes,
                ResourceClass::Wire,
                workspace.wires.capacities.as_slice(),
                workspace.wires.occupancy.as_slice(),
            )
        };
        let pips = if single {
            contested_connections(
                &self.routes,
                ResourceClass::Pip,
                &workspace.pip_owners.conflicts,
            )
        } else {
            overused_connections(
                &self.routes,
                ResourceClass::Pip,
                workspace.pips.capacities.as_slice(),
                workspace.pips.occupancy.as_slice(),
            )
        };
        proof {
            assert(wires@ =~= self.records(*workspace, ResourceClass::Wire));
            assert(pips@ =~= self.records(*workspace, ResourceClass::Pip));
            assert forall|c: ConnectionOwner| #[trigger] wires@.contains(c) implies c.resource
                < workspace.wires.capacities@.len() && c.net.0 < trial.net_count() by {
                if single {
                    self.lemma_claimed_in_range(*trial, ResourceClass::Wire, c);
                } else {
                    self.lemma_used_in_range(*trial, ResourceClass::Wire, c);
                }
            }
            assert forall|c: ConnectionOwner| #[trigger] pips@.contains(c) implies c.resource
                < workspace.pips.capacities@.len() && c.net.0 < trial.net_count() by {
                if single {
                    self.lemma_claimed_in_range(*trial, ResourceClass::Pip, c);
                } else {
                    self.lemma_used_in_range(*trial, ResourceClass::Pip, c);
                }
            }
        }
        select_connection_victims(
            &wires,
            workspace.wires.capacities.as_slice(),
            trial.constraints,
            trial.costs,
            &mut dirty,
        );
        let ghost middle = dirty@;
        select_connection_victims(
            &pips,
            workspace.pips.capacities.as_slice(),
            trial.constraints,
            trial.costs,
            &mut dirty,
        );
        dirty
    }

    /// A record of an arc names a resource of the device and a net of the design.
    proof fn lemma_record_in_range(
        &self,
        trial: Trial<'_>,
        class: ResourceClass,
        owner: ConnectionOwner,
        slot: int,
        index: int,
    )
        requires
            trial.wf(),
            trial.slots_ok(self.routes@),
            0 <= slot < self.routes@.len(),
            self.routes@[slot] is Some,
            0 <= index < (self.routes@[slot]->0).arcs@.len(),
            (self.routes@[slot]->0).net == owner.net,
            crate::owners::arc_has((self.routes@[slot]->0).arcs@[index], class, owner.resource),
        ensures
            owner.net.0 < trial.net_count(),
            class == ResourceClass::Wire ==> owner.resource < trial.graph.device.wires@.len(),
            class == ResourceClass::Pip ==> owner.resource < trial.graph.device.pips@.len(),
    {
        self.lemma_arc_in_range(trial, slot, index);
        let arc = (self.routes@[slot]->0).arcs@[index];
        match class {
            ResourceClass::Wire => {
                let r = arc.wires@.index_of(WireId(owner.resource));
                assert(arc.wires@[r].0 == owner.resource);
            },
            ResourceClass::Pip => {
                let r = arc.pips@.index_of(PipId(owner.resource));
                assert(arc.pips@[r].0 == owner.resource);
            },
        }
    }

    /// A record of a used resource names a resource of the device and a net of the design.
    proof fn lemma_used_in_range(
        &self,
        trial: Trial<'_>,
        class: ResourceClass,
        owner: ConnectionOwner,
    )
        requires
            trial.wf(),
            trial.slots_ok(self.routes@),
            uses(self.routes@, class, owner),
        ensures
            owner.net.0 < trial.net_count(),
            class == ResourceClass::Wire ==> owner.resource < trial.graph.device.wires@.len(),
            class == ResourceClass::Pip ==> owner.resource < trial.graph.device.pips@.len(),
    {
        let routes = self.routes@;
        let (i, k) = choose|i: int, k: int|
            0 <= i < routes.len() && #[trigger] arc_owns(
                routes,
                class,
                owner,
                i,
                k,
            );
        self.lemma_record_in_range(trial, class, owner, i, k);
    }

    /// A record of a contender names a resource of the device and a net of the design.
    proof fn lemma_claimed_in_range(
        &self,
        trial: Trial<'_>,
        class: ResourceClass,
        owner: ConnectionOwner,
    )
        requires
            trial.wf(),
            trial.slots_ok(self.routes@),
            claimed(self.routes@, class, owner),
        ensures
            owner.net.0 < trial.net_count(),
            class == ResourceClass::Wire ==> owner.resource < trial.graph.device.wires@.len(),
            class == ResourceClass::Pip ==> owner.resource < trial.graph.device.pips@.len(),
    {
        let slot = owner.net.0 as int;
        let route = self.routes@[slot]->0;
        let k = choose|k: int|
            0 <= k < route.arcs@.len() && (#[trigger] route.arcs@[k]).sink == owner.sink
                && crate::owners::arc_has(route.arcs@[k], class, owner.resource);
        assert(trial.slot_ok(slot, self.routes@[slot]));
        assert(NetId(slot as usize) == owner.net);
        self.lemma_record_in_range(trial, class, owner, slot, k);
    }
}

} // verus!
