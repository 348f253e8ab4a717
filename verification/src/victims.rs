//! Choice of the connections that are released from overused resources.

use std::sync::Arc;

use vstd::prelude::*;

use crate::model::{CellPinId, Connection, NetId};
use crate::ordered::{increasing, OrderedKey, OrderedSet};
use crate::owners::{arc_has, arc_uses, ResourceClaim, ResourceClass};
use crate::route::{NetRoute, RouteArc};
use crate::routing_constraints::RoutingConstraints;
use crate::routing_costs::{arc_criticality, routing_arc_criticality, RoutingCosts};

verus! {

/// A connection that uses a contested resource.
#[derive(Clone, Copy, Debug, PartialEq, Eq, PartialOrd, Ord, Structural)]
pub struct ConnectionOwner {
    /// Index of the resource.
    pub resource: usize,
    /// Using net.
    pub net: NetId,
    /// Sink of the using arc; none on architecture topology.
    pub sink: Option<CellPinId>,
}

/// Place of an optional sink: none comes first.
pub open spec fn sink_code(sink: Option<CellPinId>) -> int {
    match sink {
        Some(sink) => sink.0 + 1,
        None => 0,
    }
}

impl OrderedKey for ConnectionOwner {
    open spec fn rank(self) -> int {
        (self.resource * 0x1_0000_0000_0000_0000 + self.net.0) * 0x2_0000_0000_0000_0000
            + sink_code(self.sink)
    }

    proof fn rank_is_injective(a: Self, b: Self) {
    }

    fn precedes(self, other: Self) -> (result: bool) {
        if self.resource != other.resource {
            return self.resource < other.resource;
        }
        if self.net.0 != other.net.0 {
            return self.net.0 < other.net.0;
        }
        match (self.sink, other.sink) {
            (None, Some(_)) => true,
            (Some(a), Some(b)) => a.0 < b.0,
            (_, None) => false,
        }
    }
}

/// A net on a contested resource: immovable nets first, then the most critical.
#[derive(Clone, Copy, Debug, PartialEq, Eq, Structural)]
pub struct RankedConnectionOwner {
    /// Whether a routing constraint holds one of its arcs in place.
    pub locked: bool,
    /// Greatest criticality of its arcs on the resource.
    pub criticality: u64,
    /// The net.
    pub net: NetId,
}

impl OrderedKey for RankedConnectionOwner {
    open spec fn rank(self) -> int {
        (crate::occupancy::as_count(!self.locked) * 0x1_0000_0000_0000_0000 + (u64::MAX
            - self.criticality)) * 0x1_0000_0000_0000_0000 + self.net.0
    }

    proof fn rank_is_injective(a: Self, b: Self) {
    }

    fn precedes(self, other: Self) -> (result: bool) {
        if self.locked != other.locked {
            self.locked
        } else if self.criticality != other.criticality {
            self.criticality > other.criticality
        } else {
            self.net.0 < other.net.0
        }
    }
}

/// Some arc of a used slot passes the resource for the connection.
pub open spec fn uses(
    routes: Seq<Option<Arc<NetRoute>>>,
    class: ResourceClass,
    owner: ConnectionOwner,
) -> bool {
    exists|i: int, k: int|
        0 <= i < routes.len() && #[trigger] arc_owns(routes, class, owner, i, k)
}

/// One arc of one slot passes the resource for the connection.
pub open spec fn arc_owns(
    routes: Seq<Option<Arc<NetRoute>>>,
    class: ResourceClass,
    owner: ConnectionOwner,
    slot: int,
    index: int,
) -> bool {
    routes[slot] matches Some(route) && {
        &&& 0 <= index < route.arcs@.len()
        &&& route.net == owner.net
        &&& route.arcs@[index].sink == owner.sink
        &&& arc_has(route.arcs@[index], class, owner.resource)
    }
}

/// Indices of the wires or PIPs of an arc.
pub open spec fn arc_resources(arc: RouteArc, class: ResourceClass) -> Seq<usize> {
    match class {
        ResourceClass::Wire => arc.wires@.map_values(|w: crate::model::WireId| w.0),
        ResourceClass::Pip => arc.pips@.map_values(|p: crate::model::PipId| p.0),
    }
}

/// Every arc of the slots passes resources below a bound.
pub open spec fn in_range(
    routes: Seq<Option<Arc<NetRoute>>>,
    class: ResourceClass,
    count: int,
) -> bool {
    forall|i: int, k: int, r: int|
        #![trigger arc_resources((routes[i]->0).arcs@[k], class)[r]]
        0 <= i < routes.len() && routes[i] is Some && 0 <= k < (routes[i]->0).arcs@.len() && 0 <= r
            < arc_resources((routes[i]->0).arcs@[k], class).len() ==> arc_resources(
            (routes[i]->0).arcs@[k],
            class,
        )[r] < count
}

/// Number of resources of an arc.
fn resource_count(arc: &RouteArc, class: ResourceClass) -> (result: usize)
    ensures
        result == arc_resources(*arc, class).len(),
{
    match class {
        ResourceClass::Wire => arc.wires.len(),
        ResourceClass::Pip => arc.pips.len(),
    }
}

/// One resource of an arc.
fn resource_at(arc: &RouteArc, class: ResourceClass, index: usize) -> (result: usize)
    requires
        index < arc_resources(*arc, class).len(),
    ensures
        result == arc_resources(*arc, class)[index as int],
{
    match class {
        ResourceClass::Wire => arc.wires[index].0,
        ResourceClass::Pip => arc.pips[index].0,
    }
}

/// An arc passes the resources that it lists.
proof fn lemma_arc_resources(arc: RouteArc, class: ResourceClass, resource: usize)
    ensures
        arc_has(arc, class, resource) <==> arc_resources(arc, class).contains(resource),
{
    let list = arc_resources(arc, class);
    match class {
        ResourceClass::Wire => {
            let wire = crate::model::WireId(resource);
            if arc.wires@.contains(wire) {
                let i = arc.wires@.index_of(wire);
                assert(list[i] == resource);
            }
            if list.contains(resource) {
                let i = list.index_of(resource);
                assert(arc.wires@[i] == wire);
            }
        },
        ResourceClass::Pip => {
            let pip = crate::model::PipId(resource);
            if arc.pips@.contains(pip) {
                let i = arc.pips@.index_of(pip);
                assert(list[i] == resource);
            }
            if list.contains(resource) {
                let i = list.index_of(resource);
                assert(arc.pips@[i] == pip);
            }
        },
    }
}

/// Every connection on an overused resource.
pub fn overused_connections(
    routes: &Vec<Option<Arc<NetRoute>>>,
    class: ResourceClass,
    capacities: &[u16],
    occupancy: &[u16],
) -> (result: OrderedSet<ConnectionOwner>)
    requires
        capacities@.len() == occupancy@.len(),
        in_range(routes@, class, capacities@.len() as int),
    ensures
        result.wf(),
        forall|c: ConnectionOwner| #[trigger]
            result@.contains(c) <==> c.resource < capacities@.len() && occupancy@[c.resource as int]
                > capacities@[c.resource as int] && uses(routes@, class, c),
{
    let mut result: OrderedSet<ConnectionOwner> = OrderedSet::new();
    let mut slot: usize = 0;
    while slot < routes.len()
        invariant
            slot <= routes@.len(),
            capacities@.len() == occupancy@.len(),
            in_range(routes@, class, capacities@.len() as int),
            result.wf(),
            forall|c: ConnectionOwner| #[trigger]
                result@.contains(c) <==> c.resource < capacities@.len()
                    && occupancy@[c.resource as int] > capacities@[c.resource as int] && exists|
                    i: int,
                    k: int,
                |
                    0 <= i < slot && #[trigger] arc_owns(routes@, class, c, i, k),
        decreases routes@.len() - slot,
    {
        let ghost before = result@;
        if let Some(route) = &routes[slot] {
            assert(routes@[slot as int] == Some(*route));
            let mut index: usize = 0;
            while index < route.arcs.len()
                invariant
                    index <= route.arcs@.len(),
                    slot < routes@.len(),
                    routes@[slot as int] == Some(*route),
                    capacities@.len() == occupancy@.len(),
                    in_range(routes@, class, capacities@.len() as int),
                    result.wf(),
                    forall|c: ConnectionOwner| #[trigger]
                        result@.contains(c) <==> before.contains(c) || (c.resource
                            < capacities@.len() && occupancy@[c.resource as int]
                            > capacities@[c.resource as int] && exists|k: int|
                            k < index && #[trigger] arc_owns(routes@, class, c, slot as int, k)),
                decreases route.arcs@.len() - index,
            {
                let arc = &route.arcs[index];
                let count: usize = resource_count(arc, class);
                let ghost list = arc_resources(*arc, class);
                let ghost inner = result@;
                let mut position: usize = 0;
                proof {
                    assert forall|r: int| 0 <= r < list.len() implies (#[trigger] list[r])
                        < capacities@.len() by {
                        assert(arc_resources(
                            (routes@[slot as int]->0).arcs@[index as int],
                            class,
                        )[r] < capacities@.len());
                    }
                }
                while position < count
                    invariant
                        position <= count,
                        count == list.len(),
                        list == arc_resources(*arc, class),
                        index < route.arcs@.len(),
                        *arc == route.arcs@[index as int],
                        slot < routes@.len(),
                        routes@[slot as int] == Some(*route),
                        capacities@.len() == occupancy@.len(),
                        forall|r: int|
                            0 <= r < list.len() ==> (#[trigger] list[r]) < capacities@.len(),
                        result.wf(),
                        forall|c: ConnectionOwner| #[trigger]
                            result@.contains(c) <==> inner.contains(c) || (c.net == route.net
                                && c.sink == arc.sink && c.resource < capacities@.len()
                                && occupancy@[c.resource as int] > capacities@[c.resource as int]
                                && list.take(position as int).contains(c.resource)),
                    decreases count - position,
                {
                    let resource: usize = resource_at(arc, class, position);
                    assert(list[position as int] < capacities@.len());
                    let ghost early = result@;
                    let owner = ConnectionOwner { resource, net: route.net, sink: arc.sink };
                    if occupancy[resource] > capacities[resource] {
                        result.insert(owner);
                    }
                    proof {
                        let shorter = list.take(position as int);
                        let longer = list.take(position + 1);
                        assert forall|r: usize| longer.contains(r) <==> #[trigger] shorter.contains(
                            r,
                        ) || r == resource by {
                            if shorter.contains(r) {
                                let i = shorter.index_of(r);
                                assert(longer[i] == r);
                            }
                            assert(longer[position as int] == resource);
                            if longer.contains(r) && r != resource {
                                let i = longer.index_of(r);
                                assert(shorter[i] == r);
                            }
                        }
                        assert forall|c: ConnectionOwner| #[trigger] result@.contains(c)
                            <==> inner.contains(c) || (c.net == route.net && c.sink == arc.sink
                            && c.resource < capacities@.len() && occupancy@[c.resource as int]
                            > capacities@[c.resource as int] && longer.contains(c.resource)) by {
                            assert(early.contains(c) <==> inner.contains(c) || (c.net == route.net
                                && c.sink == arc.sink && c.resource < capacities@.len()
                                && occupancy@[c.resource as int] > capacities@[c.resource as int]
                                && shorter.contains(c.resource)));
                            assert(longer.contains(c.resource) <==> shorter.contains(c.resource)
                                || c.resource == resource);
                        }
                    }
                    position = position + 1;
                }
                proof {
                    assert(list.take(position as int) =~= list);
                    assert forall|c: ConnectionOwner| #[trigger] result@.contains(c)
                        <==> before.contains(c) || (c.resource < capacities@.len()
                        && occupancy@[c.resource as int] > capacities@[c.resource as int]
                        && exists|k: int|
                        k < index + 1 && #[trigger] arc_owns(
                            routes@,
                            class,
                            c,
                            slot as int,
                            k,
                        )) by {
                        lemma_arc_resources(*arc, class, c.resource);
                        let own = arc_owns(routes@, class, c, slot as int, index as int);
                        assert(own <==> c.net == route.net && c.sink == arc.sink && list.contains(
                            c.resource,
                        ));
                        if exists|k: int|
                            k < index && #[trigger] arc_owns(routes@, class, c, slot as int, k) {
                            let k = choose|k: int|
                                k < index && #[trigger] arc_owns(routes@, class, c, slot as int, k);
                            assert(k < index + 1 && arc_owns(routes@, class, c, slot as int, k));
                        }
                        if exists|k: int|
                            k < index + 1 && #[trigger] arc_owns(
                                routes@,
                                class,
                                c,
                                slot as int,
                                k,
                            ) {
                            let k = choose|k: int|
                                k < index + 1 && #[trigger] arc_owns(
                                    routes@,
                                    class,
                                    c,
                                    slot as int,
                                    k,
                                );
                            if k < index {
                                assert(k < index && arc_owns(routes@, class, c, slot as int, k));
                            }
                        }
                    }
                }
                index = index + 1;
            }
        }
        proof {
            assert forall|c: ConnectionOwner| #[trigger] result@.contains(c) <==> c.resource
                < capacities@.len() && occupancy@[c.resource as int]
                > capacities@[c.resource as int] && exists|i: int, k: int|
                0 <= i < slot + 1 && #[trigger] arc_owns(routes@, class, c, i, k) by {
                assert(before.contains(c) <==> c.resource < capacities@.len()
                    && occupancy@[c.resource as int] > capacities@[c.resource as int] && exists|
                    i: int,
                    k: int,
                |
                    0 <= i < slot && #[trigger] arc_owns(routes@, class, c, i, k));
                if before.contains(c) {
                    let (i, k) = choose|i: int, k: int|
                        0 <= i < slot && #[trigger] arc_owns(routes@, class, c, i, k);
                    assert(0 <= i < slot + 1 && arc_owns(routes@, class, c, i, k));
                }
                if exists|i: int, k: int|
                    0 <= i < slot + 1 && #[trigger] arc_owns(routes@, class, c, i, k) {
                    let (i, k) = choose|i: int, k: int|
                        0 <= i < slot + 1 && #[trigger] arc_owns(routes@, class, c, i, k);
                    if i < slot {
                        assert(0 <= i < slot && arc_owns(routes@, class, c, i, k));
                    } else {
                        assert(arc_owns(routes@, class, c, slot as int, k));
                    }
                }
            }
        }
        slot = slot + 1;
    }
    result
}

/// Every connection of a contender on the resource that it contends for.
pub fn contested_connections(
    routes: &Vec<Option<Arc<NetRoute>>>,
    class: ResourceClass,
    conflicts: &OrderedSet<ResourceClaim>,
) -> (result: OrderedSet<ConnectionOwner>)
    requires
        conflicts.wf(),
    ensures
        result.wf(),
        forall|c: ConnectionOwner| #[trigger]
            result@.contains(c) <==> conflicts@.contains(
                ResourceClaim { resource: c.resource, net: c.net },
            ) && claimed(routes@, class, c),
{
    let mut result: OrderedSet<ConnectionOwner> = OrderedSet::new();
    let mut index: usize = 0;
    let ghost claims = conflicts.ordered();
    while index < conflicts.len()
        invariant
            index <= claims.len(),
            claims == conflicts.ordered(),
            result.wf(),
            forall|c: ConnectionOwner| #[trigger]
                result@.contains(c) <==> claims.take(index as int).contains(
                    ResourceClaim { resource: c.resource, net: c.net },
                ) && claimed(routes@, class, c),
        decreases claims.len() - index,
    {
        let claim = conflicts.at(index);
        let ghost before = result@;
        if claim.net.0 < routes.len() {
            if let Some(route) = &routes[claim.net.0] {
                let mut at: usize = 0;
                while at < route.arcs.len()
                    invariant
                        at <= route.arcs@.len(),
                        claim.net.0 < routes@.len(),
                        routes@[claim.net.0 as int] == Some(*route),
                        result.wf(),
                        forall|c: ConnectionOwner| #[trigger]
                            result@.contains(c) <==> before.contains(c) || (c.resource
                                == claim.resource && c.net == claim.net && exists|k: int|
                                0 <= k < at && (#[trigger] route.arcs@[k]).sink == c.sink
                                    && arc_has(route.arcs@[k], class, c.resource)),
                    decreases route.arcs@.len() - at,
                {
                    let arc = &route.arcs[at];
                    let ghost inner = result@;
                    if arc_uses(arc, class, claim.resource) {
                        result.insert(
                            ConnectionOwner {
                                resource: claim.resource,
                                net: claim.net,
                                sink: arc.sink,
                            },
                        );
                    }
                    proof {
                        assert forall|c: ConnectionOwner| #[trigger] result@.contains(c)
                            <==> before.contains(c) || (c.resource == claim.resource && c.net
                            == claim.net && exists|k: int|
                            0 <= k < at + 1 && (#[trigger] route.arcs@[k]).sink == c.sink
                                && arc_has(route.arcs@[k], class, c.resource)) by {
                            assert(inner.contains(c) <==> before.contains(c) || (c.resource
                                == claim.resource && c.net == claim.net && exists|k: int|
                                0 <= k < at && (#[trigger] route.arcs@[k]).sink == c.sink
                                    && arc_has(route.arcs@[k], class, c.resource)));
                            if exists|k: int|
                                0 <= k < at && (#[trigger] route.arcs@[k]).sink == c.sink
                                    && arc_has(route.arcs@[k], class, c.resource) {
                                let k = choose|k: int|
                                    0 <= k < at && (#[trigger] route.arcs@[k]).sink == c.sink
                                        && arc_has(route.arcs@[k], class, c.resource);
                                assert(route.arcs@[k].sink == c.sink);
                            }
                            assert(route.arcs@[at as int] == *arc);
                            if exists|k: int|
                                0 <= k < at + 1 && (#[trigger] route.arcs@[k]).sink == c.sink
                                    && arc_has(route.arcs@[k], class, c.resource) {
                                let k = choose|k: int|
                                    0 <= k < at + 1 && (#[trigger] route.arcs@[k]).sink == c.sink
                                        && arc_has(route.arcs@[k], class, c.resource);
                                if k < at {
                                    assert(route.arcs@[k].sink == c.sink);
                                }
                            }
                        }
                    }
                    at = at + 1;
                }
            }
        }
        proof {
            let shorter = claims.take(index as int);
            let longer = claims.take(index + 1);
            assert forall|c: ConnectionOwner| #[trigger] result@.contains(c) <==> longer.contains(
                ResourceClaim { resource: c.resource, net: c.net },
            ) && claimed(routes@, class, c) by {
                let own = ResourceClaim { resource: c.resource, net: c.net };
                if shorter.contains(own) {
                    let i = shorter.index_of(own);
                    assert(longer[i] == own);
                }
                assert(longer[index as int] == claim);
                if longer.contains(own) && own != claim {
                    let i = longer.index_of(own);
                    assert(shorter[i] == own);
                }
                assert(before.contains(c) <==> shorter.contains(own) && claimed(
                    routes@,
                    class,
                    c,
                ));
            }
        }
        index = index + 1;
    }
    proof {
        assert(claims.take(index as int) =~= claims);
        assert forall|c: ConnectionOwner| #[trigger] result@.contains(c) <==> conflicts@.contains(
            ResourceClaim { resource: c.resource, net: c.net },
        ) && claimed(routes@, class, c) by {
            conflicts.membership(ResourceClaim { resource: c.resource, net: c.net });
        }
    }
    result
}

/// The slot of the net holds an arc that passes the resource for the connection.
pub open spec fn claimed(
    routes: Seq<Option<Arc<NetRoute>>>,
    class: ResourceClass,
    owner: ConnectionOwner,
) -> bool {
    &&& owner.net.0 < routes.len()
    &&& routes[owner.net.0 as int] matches Some(route) && exists|k: int|
        0 <= k < route.arcs@.len() && (#[trigger] route.arcs@[k]).sink == owner.sink && arc_has(
            route.arcs@[k],
            class,
            owner.resource,
        )
}

/// Every route stands in the slot of its net.
pub open spec fn slots_match(routes: Seq<Option<Arc<NetRoute>>>) -> bool {
    forall|i: int|
        0 <= i < routes.len() ==> ((#[trigger] routes[i]) matches Some(route) ==> route.net.0 == i)
}

/// Where every route stands in the slot of its net and the contenders are the
/// users of the overused resources, looking the contenders up finds the same
/// connections as going through every route.
pub proof fn indexed_lookup_finds_the_same(
    routes: Seq<Option<Arc<NetRoute>>>,
    class: ResourceClass,
    capacities: Seq<u16>,
    occupancy: Seq<u16>,
    conflicts: Set<ResourceClaim>,
    owner: ConnectionOwner,
)
    requires
        slots_match(routes),
        capacities.len() == occupancy.len(),
        forall|claim: ResourceClaim| #[trigger]
            conflicts.contains(claim) <==> claim.resource < capacities.len()
                && occupancy[claim.resource as int] > capacities[claim.resource as int] && exists|
                sink: Option<CellPinId>,
            |
                #[trigger] uses(
                    routes,
                    class,
                    (ConnectionOwner { resource: claim.resource, net: claim.net, sink }),
                ),
    ensures
        (conflicts.contains(ResourceClaim { resource: owner.resource, net: owner.net }) && claimed(
            routes,
            class,
            owner,
        )) <==> (owner.resource < capacities.len() && occupancy[owner.resource as int]
            > capacities[owner.resource as int] && uses(routes, class, owner)),
{
    let claim = ResourceClaim { resource: owner.resource, net: owner.net };
    if claimed(routes, class, owner) {
        let route = routes[owner.net.0 as int]->0;
        let k = choose|k: int|
            0 <= k < route.arcs@.len() && (#[trigger] route.arcs@[k]).sink == owner.sink && arc_has(
                route.arcs@[k],
                class,
                owner.resource,
            );
        assert(routes[owner.net.0 as int] is Some);
        assert(arc_owns(routes, class, owner, owner.net.0 as int, k));
        assert(uses(routes, class, owner));
    }
    if uses(routes, class, owner) {
        let (i, k) = choose|i: int, k: int|
            0 <= i < routes.len() && #[trigger] arc_owns(routes, class, owner, i, k);
        let route = routes[i]->0;
        assert(route.net.0 == i);
        assert(route.arcs@[k].sink == owner.sink);
        assert(claimed(routes, class, owner));
        assert(owner == (ConnectionOwner {
            resource: claim.resource,
            net: claim.net,
            sink: owner.sink,
        }));
    }
}

/// A routing constraint holds an arc to the sink in place.
pub open spec fn sink_locked(
    constraints: &RoutingConstraints,
    net: NetId,
    sink: Option<CellPinId>,
) -> bool {
    constraints.routes@.contains_key(net) && exists|i: int|
        0 <= i < constraints.routes@[net].arcs@.len() && (
        #[trigger] constraints.routes@[net].arcs@[i]).sink == sink
}

/// Whether a routing constraint holds an arc to the sink in place.
pub fn is_sink_locked(
    constraints: &RoutingConstraints,
    net: NetId,
    sink: Option<CellPinId>,
) -> (result: bool)
    requires
        constraints.wf(),
    ensures
        result == sink_locked(constraints, net, sink),
{
    match constraints.routes.get(net) {
        None => false,
        Some(route) => {
            let mut index: usize = 0;
            while index < route.arcs.len()
                invariant
                    index <= route.arcs@.len(),
                    constraints.routes@.contains_key(net),
                    *route == constraints.routes@[net],
                    forall|i: int|
                        0 <= i < index ==> (#[trigger] constraints.routes@[net].arcs@[i]).sink
                            != sink,
                decreases route.arcs@.len() - index,
            {
                let same = match (route.arcs[index].sink, sink) {
                    (None, None) => true,
                    (Some(a), Some(b)) => a == b,
                    _ => false,
                };
                if same {
                    assert(constraints.routes@[net].arcs@[index as int].sink == sink);
                    return true;
                }
                index = index + 1;
            }
            false
        },
    }
}

/// The net uses the resource.
pub open spec fn owns(records: Set<ConnectionOwner>, resource: usize, net: NetId) -> bool {
    exists|sink: Option<CellPinId>| #[trigger]
        records.contains(ConnectionOwner { resource, net, sink })
}

/// A routing constraint holds one of the net's arcs on the resource in place.
pub open spec fn owner_locked(
    records: Set<ConnectionOwner>,
    constraints: &RoutingConstraints,
    resource: usize,
    net: NetId,
) -> bool {
    exists|sink: Option<CellPinId>| #[trigger]
        records.contains(ConnectionOwner { resource, net, sink }) && sink_locked(
            constraints,
            net,
            sink,
        )
}

/// Greatest criticality of the net's arcs to sinks on the resource, or the
/// greatest value where it has none.
pub open spec fn is_owner_criticality(
    records: Set<ConnectionOwner>,
    costs: Option<&RoutingCosts>,
    resource: usize,
    net: NetId,
    criticality: u64,
) -> bool {
    if exists|sink: CellPinId| #[trigger]
        records.contains(ConnectionOwner { resource, net, sink: Some(sink) }) {
        &&& exists|sink: CellPinId| #[trigger]
            records.contains(ConnectionOwner { resource, net, sink: Some(sink) })
                && arc_criticality(costs, net, sink) == criticality
        &&& forall|sink: CellPinId| #[trigger]
            records.contains(ConnectionOwner { resource, net, sink: Some(sink) })
                ==> arc_criticality(costs, net, sink) <= criticality
    } else {
        criticality == u64::MAX
    }
}

/// The entry ranks the net among those on the resource.
pub open spec fn ranks(
    records: Set<ConnectionOwner>,
    constraints: &RoutingConstraints,
    costs: Option<&RoutingCosts>,
    resource: usize,
    entry: RankedConnectionOwner,
) -> bool {
    &&& owns(records, resource, entry.net)
    &&& entry.locked == owner_locked(records, constraints, resource, entry.net)
    &&& is_owner_criticality(records, costs, resource, entry.net, entry.criticality)
}

/// Every ranked net on a resource.
pub open spec fn ranking(
    records: Set<ConnectionOwner>,
    constraints: &RoutingConstraints,
    costs: Option<&RoutingCosts>,
    resource: usize,
) -> Set<RankedConnectionOwner> {
    Set::new(|entry: RankedConnectionOwner| ranks(records, constraints, costs, resource, entry))
}

/// The net must give the resource up.
///
/// From a resource with room for one net, every movable net is released.
/// From a larger one, those that rank behind its capacity are.
pub open spec fn must_release(
    records: Set<ConnectionOwner>,
    capacities: Seq<u16>,
    constraints: &RoutingConstraints,
    costs: Option<&RoutingCosts>,
    resource: usize,
    net: NetId,
) -> bool {
    let capacity = capacities[resource as int] as nat;
    let all = ranking(records, constraints, costs, resource);
    &&& all.len() > capacity
    &&& exists|entry: RankedConnectionOwner|
        {
            &&& #[trigger] all.contains(entry)
            &&& entry.net == net
            &&& if capacity == 1 {
                !entry.locked
            } else {
                all.filter(|other: RankedConnectionOwner| other.rank() < entry.rank()).len()
                    >= capacity
            }
        }
}

/// The connection must give some resource up, and no constraint holds it in place.
pub open spec fn is_victim(
    records: Set<ConnectionOwner>,
    capacities: Seq<u16>,
    constraints: &RoutingConstraints,
    costs: Option<&RoutingCosts>,
    connection: Connection,
) -> bool {
    &&& !sink_locked(constraints, connection.net, Some(connection.sink))
    &&& exists|resource: usize| #[trigger]
        records.contains(
            ConnectionOwner { resource, net: connection.net, sink: Some(connection.sink) },
        ) && must_release(records, capacities, constraints, costs, resource, connection.net)
}

/// The records of one resource stand together.
spec fn is_group(list: Seq<ConnectionOwner>, start: int, end: int, resource: usize) -> bool {
    &&& 0 <= start < end <= list.len()
    &&& forall|i: int|
        0 <= i < list.len() ==> ((#[trigger] list[i]).resource == resource <==> start <= i < end)
}

/// In an ordered set, an entry has as many entries before it as its position says.
proof fn lemma_rank_filter<K: OrderedKey>(set: &OrderedSet<K>, index: int)
    requires
        set.wf(),
        0 <= index < set.ordered().len(),
    ensures
        set@.filter(|other: K| other.rank() < set.ordered()[index].rank()).len() == index,
{
    let keys = set.ordered();
    let shorter = keys.take(index);
    let before = set@.filter(|other: K| other.rank() < keys[index].rank());
    assert forall|k: K| before.contains(k) <==> shorter.to_set().contains(k) by {
        set.membership(k);
        if before.contains(k) {
            let i = keys.index_of(k);
            if i > index {
                assert(keys[index].rank() < keys[i].rank());
            }
            assert(shorter[i] == k);
        }
        if shorter.contains(k) {
            let i = shorter.index_of(k);
            assert(keys[i] == k);
            assert(keys[i].rank() < keys[index].rank());
        }
    }
    assert(before =~= shorter.to_set());
    assert(increasing(shorter)) by {
        assert forall|i: int, j: int| 0 <= i < j < shorter.len() implies (
        #[trigger] shorter[i]).rank() < (#[trigger] shorter[j]).rank() by {
            assert(keys[i].rank() < keys[j].rank());
        }
    }
    crate::ordered::increasing_has_no_duplicates(shorter);
    shorter.unique_seq_to_set();
}

/// Rank of one net among those on a resource.
fn owner_entry(
    records: &OrderedSet<ConnectionOwner>,
    start: usize,
    end: usize,
    resource: usize,
    net: NetId,
    constraints: &RoutingConstraints,
    costs: Option<&RoutingCosts>,
) -> (result: RankedConnectionOwner)
    requires
        records.wf(),
        is_group(records.ordered(), start as int, end as int, resource),
        constraints.wf(),
        costs matches Some(costs) ==> costs.wf(),
        owns(records@, resource, net),
    ensures
        result.net == net,
        ranks(records@, constraints, costs, resource, result),
{
    let ghost list = records.ordered();
    let mut locked = false;
    let mut greatest: Option<u64> = None;
    let mut index: usize = start;
    while index < end
        invariant
            start <= index <= end,
            list == records.ordered(),
            records.wf(),
            is_group(list, start as int, end as int, resource),
            constraints.wf(),
            costs matches Some(costs) ==> costs.wf(),
            locked == exists|i: int|
                start <= i < index && (#[trigger] list[i]).net == net && sink_locked(
                    constraints,
                    net,
                    list[i].sink,
                ),
            greatest is None ==> forall|i: int|
                start <= i < index && (#[trigger] list[i]).net == net ==> list[i].sink is None,
            greatest matches Some(value) ==> {
                &&& exists|i: int|
                    start <= i < index && (#[trigger] list[i]).net == net && list[i].sink is Some
                        && arc_criticality(costs, net, list[i].sink->0) == value
                &&& forall|i: int|
                    start <= i < index && (#[trigger] list[i]).net == net && list[i].sink is Some
                        ==> arc_criticality(costs, net, list[i].sink->0) <= value
            },
        decreases end - index,
    {
        let record = records.at(index);
        if record.net == net {
            if is_sink_locked(constraints, net, record.sink) {
                locked = true;
            }
            if let Some(sink) = record.sink {
                let criticality: u64 = routing_arc_criticality(costs, net, sink);
                greatest = match greatest {
                    None => Some(criticality),
                    Some(value) => if criticality > value {
                        Some(criticality)
                    } else {
                        Some(value)
                    },
                };
            }
        }
        index = index + 1;
    }
    let criticality: u64 = match greatest {
        Some(value) => value,
        None => u64::MAX,
    };
    let result = RankedConnectionOwner { locked, criticality, net };
    proof {
        assert forall|sink: Option<CellPinId>| #[trigger] records@.contains(
            ConnectionOwner { resource, net, sink },
        ) implies exists|i: int|
            start <= i < end && #[trigger] list[i] == (ConnectionOwner { resource, net, sink }) by {
            let owner = ConnectionOwner { resource, net, sink };
            records.membership(owner);
            let i = list.index_of(owner);
            assert(list[i].resource == resource);
            assert(list[i] == owner);
        }
        assert forall|i: int| start <= i < end && (#[trigger] list[i]).net == net implies records@.contains(
            ConnectionOwner { resource, net, sink: list[i].sink },
        ) by {
            assert(list.contains(list[i]));
            records.membership(list[i]);
            assert(list[i] == (ConnectionOwner { resource, net, sink: list[i].sink }));
        }
        if owner_locked(records@, constraints, resource, net) {
            let sink = choose|sink: Option<CellPinId>| #[trigger]
                records@.contains(ConnectionOwner { resource, net, sink }) && sink_locked(
                    constraints,
                    net,
                    sink,
                );
            let i = choose|i: int|
                start <= i < end && #[trigger] list[i] == (ConnectionOwner { resource, net, sink });
            assert(list[i].net == net && sink_locked(constraints, net, list[i].sink));
        }
        if locked {
            let i = choose|i: int|
                start <= i < end && (#[trigger] list[i]).net == net && sink_locked(
                    constraints,
                    net,
                    list[i].sink,
                );
            assert(records@.contains(ConnectionOwner { resource, net, sink: list[i].sink }));
        }
        if exists|sink: CellPinId| #[trigger]
            records@.contains(ConnectionOwner { resource, net, sink: Some(sink) }) {
            let sink = choose|sink: CellPinId| #[trigger]
                records@.contains(ConnectionOwner { resource, net, sink: Some(sink) });
            let some = Some(sink);
            assert(records@.contains(ConnectionOwner { resource, net, sink: some }));
            let i = choose|i: int|
                start <= i < end && #[trigger] list[i] == (ConnectionOwner {
                    resource,
                    net,
                    sink: some,
                });
            assert(list[i].net == net && list[i].sink is Some);
            assert(greatest is Some);
            let j = choose|j: int|
                start <= j < end && (#[trigger] list[j]).net == net && list[j].sink is Some
                    && arc_criticality(costs, net, list[j].sink->0) == criticality;
            let chosen = list[j].sink->0;
            assert(list[j].sink == Some(chosen));
            assert(records@.contains(ConnectionOwner { resource, net, sink: Some(chosen) }));
            assert forall|other: CellPinId| #[trigger] records@.contains(
                ConnectionOwner { resource, net, sink: Some(other) },
            ) implies arc_criticality(costs, net, other) <= criticality by {
                let some_other = Some(other);
                assert(records@.contains(ConnectionOwner { resource, net, sink: some_other }));
                let k = choose|k: int|
                    start <= k < end && #[trigger] list[k] == (ConnectionOwner {
                        resource,
                        net,
                        sink: some_other,
                    });
                assert(list[k].net == net && list[k].sink is Some);
            }
        } else {
            if greatest is Some {
                let j = choose|j: int|
                    start <= j < end && (#[trigger] list[j]).net == net && list[j].sink is Some
                        && arc_criticality(costs, net, list[j].sink->0) == criticality;
                let chosen = list[j].sink->0;
                assert(list[j].sink == Some(chosen));
                assert(records@.contains(ConnectionOwner { resource, net, sink: Some(chosen) }));
            }
        }
    }
    result
}

/// A net has one rank on a resource.
proof fn lemma_one_rank(
    records: Set<ConnectionOwner>,
    constraints: &RoutingConstraints,
    costs: Option<&RoutingCosts>,
    resource: usize,
    a: RankedConnectionOwner,
    b: RankedConnectionOwner,
)
    requires
        ranks(records, constraints, costs, resource, a),
        ranks(records, constraints, costs, resource, b),
        a.net == b.net,
    ensures
        a == b,
{
}

/// Ranks every net on a resource.
fn rank_owners(
    records: &OrderedSet<ConnectionOwner>,
    start: usize,
    end: usize,
    resource: usize,
    constraints: &RoutingConstraints,
    costs: Option<&RoutingCosts>,
) -> (result: OrderedSet<RankedConnectionOwner>)
    requires
        records.wf(),
        is_group(records.ordered(), start as int, end as int, resource),
        constraints.wf(),
        costs matches Some(costs) ==> costs.wf(),
    ensures
        result.wf(),
        result@ == ranking(records@, constraints, costs, resource),
{
    let ghost list = records.ordered();
    let mut result: OrderedSet<RankedConnectionOwner> = OrderedSet::new();
    let mut index: usize = start;
    while index < end
        invariant
            start <= index <= end,
            list == records.ordered(),
            records.wf(),
            is_group(list, start as int, end as int, resource),
            constraints.wf(),
            costs matches Some(costs) ==> costs.wf(),
            result.wf(),
            forall|entry: RankedConnectionOwner| #[trigger]
                result@.contains(entry) <==> ranks(
                    records@,
                    constraints,
                    costs,
                    resource,
                    entry,
                ) && exists|i: int| start <= i < index && (#[trigger] list[i]).net == entry.net,
        decreases end - index,
    {
        let net = records.at(index).net;
        proof {
            assert(list.contains(list[index as int]));
            records.membership(list[index as int]);
            assert(list[index as int] == (ConnectionOwner {
                resource,
                net,
                sink: list[index as int].sink,
            }));
            assert(owns(records@, resource, net));
        }
        let entry = owner_entry(records, start, end, resource, net, constraints, costs);
        let ghost before = result@;
        result.insert(entry);
        proof {
            assert forall|other: RankedConnectionOwner| #[trigger] result@.contains(other) <==> ranks(
                records@,
                constraints,
                costs,
                resource,
                other,
            ) && exists|i: int|
                start <= i < index + 1 && (#[trigger] list[i]).net == other.net by {
                assert(before.contains(other) <==> ranks(
                    records@,
                    constraints,
                    costs,
                    resource,
                    other,
                ) && exists|i: int|
                    start <= i < index && (#[trigger] list[i]).net == other.net);
                if before.contains(other) {
                    let i = choose|i: int|
                        start <= i < index && (#[trigger] list[i]).net == other.net;
                    assert(list[i].net == other.net);
                }
                if other == entry {
                    assert(list[index as int].net == other.net);
                }
                if ranks(records@, constraints, costs, resource, other) && exists|i: int|
                    start <= i < index + 1 && (#[trigger] list[i]).net == other.net {
                    let i = choose|i: int|
                        start <= i < index + 1 && (#[trigger] list[i]).net == other.net;
                    if i == index {
                        lemma_one_rank(records@, constraints, costs, resource, other, entry);
                    } else {
                        assert(list[i].net == other.net);
                    }
                }
            }
        }
        index = index + 1;
    }
    proof {
        assert forall|entry: RankedConnectionOwner| result@.contains(entry) <==> ranks(
            records@,
            constraints,
            costs,
            resource,
            entry,
        ) by {
            if ranks(records@, constraints, costs, resource, entry) {
                let sink = choose|sink: Option<CellPinId>| #[trigger]
                    records@.contains(ConnectionOwner { resource, net: entry.net, sink });
                let owner = ConnectionOwner { resource, net: entry.net, sink };
                records.membership(owner);
                let i = list.index_of(owner);
                assert(list[i].resource == resource);
                assert(list[i].net == entry.net);
            }
        }
        assert(result@ =~= ranking(records@, constraints, costs, resource));
    }
    result
}

/// Releases every movable connection of a net on a resource.
fn mark_connection_owner(
    records: &OrderedSet<ConnectionOwner>,
    start: usize,
    end: usize,
    resource: usize,
    net: NetId,
    constraints: &RoutingConstraints,
    dirty: &mut OrderedSet<Connection>,
)
    requires
        records.wf(),
        is_group(records.ordered(), start as int, end as int, resource),
        constraints.wf(),
        old(dirty).wf(),
    ensures
        final(dirty).wf(),
        forall|c: Connection| #[trigger]
            final(dirty)@.contains(c) <==> old(dirty)@.contains(c) || (c.net == net
                && records@.contains(ConnectionOwner { resource, net, sink: Some(c.sink) })
                && !sink_locked(constraints, net, Some(c.sink))),
{
    let ghost list = records.ordered();
    let mut index: usize = start;
    while index < end
        invariant
            start <= index <= end,
            list == records.ordered(),
            records.wf(),
            is_group(list, start as int, end as int, resource),
            constraints.wf(),
            dirty.wf(),
            forall|c: Connection| #[trigger]
                dirty@.contains(c) <==> old(dirty)@.contains(c) || (c.net == net && !sink_locked(
                    constraints,
                    net,
                    Some(c.sink),
                ) && exists|i: int|
                    start <= i < index && #[trigger] list[i] == (ConnectionOwner {
                        resource,
                        net,
                        sink: Some(c.sink),
                    })),
        decreases end - index,
    {
        let record = records.at(index);
        let ghost before = dirty@;
        assert(list[index as int].resource == resource);
        if record.net == net {
            if let Some(sink) = record.sink {
                if !is_sink_locked(constraints, net, Some(sink)) {
                    dirty.insert(Connection { net, sink });
                }
            }
        }
        proof {
            assert forall|c: Connection| #[trigger] dirty@.contains(c) <==> old(dirty)@.contains(c)
                || (c.net == net && !sink_locked(constraints, net, Some(c.sink)) && exists|i: int|
                start <= i < index + 1 && #[trigger] list[i] == (ConnectionOwner {
                    resource,
                    net,
                    sink: Some(c.sink),
                })) by {
                let own = ConnectionOwner { resource, net, sink: Some(c.sink) };
                if exists|i: int| start <= i < index && #[trigger] list[i] == own {
                    let i = choose|i: int| start <= i < index && #[trigger] list[i] == own;
                    assert(list[i] == own);
                }
                if exists|i: int| start <= i < index + 1 && #[trigger] list[i] == own {
                    let i = choose|i: int| start <= i < index + 1 && #[trigger] list[i] == own;
                    if i < index {
                        assert(list[i] == own);
                    }
                }
                assert(list[index as int] == record);
            }
        }
        index = index + 1;
    }
    proof {
        assert forall|c: Connection| #[trigger] dirty@.contains(c) <==> old(dirty)@.contains(c) || (
        c.net == net && records@.contains(ConnectionOwner { resource, net, sink: Some(c.sink) })
            && !sink_locked(constraints, net, Some(c.sink))) by {
            let own = ConnectionOwner { resource, net, sink: Some(c.sink) };
            records.membership(own);
            if records@.contains(own) {
                let i = list.index_of(own);
                assert(list[i].resource == resource);
                assert(list[i] == own);
            }
            if exists|i: int| start <= i < end && #[trigger] list[i] == own {
                let i = choose|i: int| start <= i < end && #[trigger] list[i] == own;
                assert(list.contains(list[i]));
            }
        }
    }
}

/// Releases connections from one resource.
fn release_group(
    records: &OrderedSet<ConnectionOwner>,
    start: usize,
    end: usize,
    resource: usize,
    capacities: &[u16],
    constraints: &RoutingConstraints,
    costs: Option<&RoutingCosts>,
    dirty: &mut OrderedSet<Connection>,
)
    requires
        records.wf(),
        is_group(records.ordered(), start as int, end as int, resource),
        resource < capacities@.len(),
        constraints.wf(),
        costs matches Some(costs) ==> costs.wf(),
        old(dirty).wf(),
    ensures
        final(dirty).wf(),
        forall|c: Connection| #[trigger]
            final(dirty)@.contains(c) <==> old(dirty)@.contains(c) || (records@.contains(
                ConnectionOwner { resource, net: c.net, sink: Some(c.sink) },
            ) && !sink_locked(constraints, c.net, Some(c.sink)) && must_release(
                records@,
                capacities@,
                constraints,
                costs,
                resource,
                c.net,
            )),
{
    let ranked = rank_owners(records, start, end, resource, constraints, costs);
    let capacity: usize = capacities[resource] as usize;
    let ghost all = ranking(records@, constraints, costs, resource);
    proof {
        ranked.size();
    }
    if ranked.len() <= capacity {
        return ;
    }
    let ghost keys = ranked.ordered();
    let mut index: usize = 0;
    while index < ranked.len()
        invariant
            index <= keys.len(),
            keys == ranked.ordered(),
            ranked.wf(),
            ranked@ == all,
            keys.len() > capacity,
            all.len() == keys.len(),
            all == ranking(records@, constraints, costs, resource),
            records.wf(),
            is_group(records.ordered(), start as int, end as int, resource),
            resource < capacities@.len(),
            capacity == capacities@[resource as int],
            constraints.wf(),
            dirty.wf(),
            forall|c: Connection| #[trigger]
                dirty@.contains(c) <==> old(dirty)@.contains(c) || (records@.contains(
                    ConnectionOwner { resource, net: c.net, sink: Some(c.sink) },
                ) && !sink_locked(constraints, c.net, Some(c.sink)) && exists|i: int|
                    0 <= i < index && (#[trigger] keys[i]).net == c.net && chosen(
                        keys,
                        i,
                        capacity as int,
                    )),
        decreases keys.len() - index,
    {
        let entry = ranked.at(index);
        let release = if capacity == 1 {
            !entry.locked
        } else {
            index >= capacity
        };
        let ghost before = dirty@;
        if release {
            mark_connection_owner(records, start, end, resource, entry.net, constraints, dirty);
        }
        proof {
            assert forall|c: Connection| #[trigger] dirty@.contains(c) <==> old(dirty)@.contains(c)
                || (records@.contains(
                ConnectionOwner { resource, net: c.net, sink: Some(c.sink) },
            ) && !sink_locked(constraints, c.net, Some(c.sink)) && exists|i: int|
                0 <= i < index + 1 && (#[trigger] keys[i]).net == c.net && chosen(
                    keys,
                    i,
                    capacity as int,
                )) by {
                if exists|i: int|
                    0 <= i < index && (#[trigger] keys[i]).net == c.net && chosen(
                        keys,
                        i,
                        capacity as int,
                    ) {
                    let i = choose|i: int|
                        0 <= i < index && (#[trigger] keys[i]).net == c.net && chosen(
                            keys,
                            i,
                            capacity as int,
                        );
                    assert(keys[i].net == c.net);
                }
                if exists|i: int|
                    0 <= i < index + 1 && (#[trigger] keys[i]).net == c.net && chosen(
                        keys,
                        i,
                        capacity as int,
                    ) {
                    let i = choose|i: int|
                        0 <= i < index + 1 && (#[trigger] keys[i]).net == c.net && chosen(
                            keys,
                            i,
                            capacity as int,
                        );
                    if i < index {
                        assert(keys[i].net == c.net);
                    }
                }
                assert(keys[index as int] == entry);
                assert(release == chosen(keys, index as int, capacity as int));
            }
        }
        index = index + 1;
    }
    proof {
        assert forall|c: Connection| #[trigger] dirty@.contains(c) <==> old(dirty)@.contains(c) || (
        records@.contains(ConnectionOwner { resource, net: c.net, sink: Some(c.sink) })
            && !sink_locked(constraints, c.net, Some(c.sink)) && must_release(
            records@,
            capacities@,
            constraints,
            costs,
            resource,
            c.net,
        )) by {
            if exists|i: int|
                0 <= i < index && (#[trigger] keys[i]).net == c.net && chosen(
                    keys,
                    i,
                    capacity as int,
                ) {
                let i = choose|i: int|
                    0 <= i < index && (#[trigger] keys[i]).net == c.net && chosen(
                        keys,
                        i,
                        capacity as int,
                    );
                assert(keys.contains(keys[i]));
                ranked.membership(keys[i]);
                assert(all.contains(keys[i]));
                lemma_rank_filter(&ranked, i);
            }
            if must_release(records@, capacities@, constraints, costs, resource, c.net) {
                let entry = choose|entry: RankedConnectionOwner|
                    {
                        &&& #[trigger] all.contains(entry)
                        &&& entry.net == c.net
                        &&& if capacity == 1 {
                            !entry.locked
                        } else {
                            all.filter(
                                |other: RankedConnectionOwner| other.rank() < entry.rank(),
                            ).len() >= capacity
                        }
                    };
                ranked.membership(entry);
                let i = keys.index_of(entry);
                assert(keys[i] == entry);
                lemma_rank_filter(&ranked, i);
                assert(chosen(keys, i, capacity as int));
            }
        }
    }
}

/// The ranked net at a position gives way.
spec fn chosen(keys: Seq<RankedConnectionOwner>, index: int, capacity: int) -> bool {
    if capacity == 1 {
        !keys[index].locked
    } else {
        index >= capacity
    }
}

/// Chooses the connections that are released from contested resources.
pub fn select_connection_victims(
    records: &OrderedSet<ConnectionOwner>,
    capacities: &[u16],
    constraints: &RoutingConstraints,
    costs: Option<&RoutingCosts>,
    dirty: &mut OrderedSet<Connection>,
)
    requires
        records.wf(),
        forall|c: ConnectionOwner| #[trigger]
            records@.contains(c) ==> c.resource < capacities@.len(),
        constraints.wf(),
        costs matches Some(costs) ==> costs.wf(),
        old(dirty).wf(),
    ensures
        final(dirty).wf(),
        forall|c: Connection| #[trigger]
            final(dirty)@.contains(c) <==> old(dirty)@.contains(c) || is_victim(
                records@,
                capacities@,
                constraints,
                costs,
                c,
            ),
{
    let ghost list = records.ordered();
    let mut start: usize = 0;
    while start < records.len()
        invariant
            start <= list.len(),
            list == records.ordered(),
            records.wf(),
            forall|c: ConnectionOwner| #[trigger]
                records@.contains(c) ==> c.resource < capacities@.len(),
            constraints.wf(),
            costs matches Some(costs) ==> costs.wf(),
            dirty.wf(),
            0 < start < list.len() ==> list[start - 1].resource < list[start as int].resource,
            forall|c: Connection| #[trigger]
                dirty@.contains(c) <==> old(dirty)@.contains(c) || (!sink_locked(
                    constraints,
                    c.net,
                    Some(c.sink),
                ) && exists|i: int|
                    0 <= i < start && releases(
                        list,
                        records@,
                        capacities@,
                        constraints,
                        costs,
                        c,
                        i,
                    )),
        decreases list.len() - start,
    {
        let resource: usize = records.at(start).resource;
        let mut end: usize = start + 1;
        while end < records.len() && records.at(end).resource == resource
            invariant
                start < end <= list.len(),
                list == records.ordered(),
                records.wf(),
                resource == list[start as int].resource,
                forall|i: int| start <= i < end ==> (#[trigger] list[i]).resource == resource,
            decreases list.len() - end,
        {
            end = end + 1;
        }
        proof {
            assert forall|i: int| 0 <= i < list.len() implies ((#[trigger] list[i]).resource
                == resource <==> start <= i < end) by {
                if i < start {
                    if i < start - 1 {
                        assert(list[i].rank() < list[start - 1].rank());
                    }
                } else if i >= end {
                    if i > end {
                        assert(list[end as int].rank() < list[i].rank());
                    }
                    assert(list[end - 1].rank() < list[end as int].rank());
                }
            }
            assert(list.contains(list[start as int]));
            records.membership(list[start as int]);
        }
        let ghost before = dirty@;
        release_group(
            records,
            start,
            end,
            resource,
            capacities,
            constraints,
            costs,
            dirty,
        );
        proof {
            assert forall|c: Connection| #[trigger] dirty@.contains(c) <==> old(dirty)@.contains(c)
                || (!sink_locked(constraints, c.net, Some(c.sink)) && exists|i: int|
                0 <= i < end && releases(
                    list,
                    records@,
                    capacities@,
                    constraints,
                    costs,
                    c,
                    i,
                )) by {
                let own = ConnectionOwner { resource, net: c.net, sink: Some(c.sink) };
                if exists|i: int|
                    0 <= i < start && releases(
                        list,
                        records@,
                        capacities@,
                        constraints,
                        costs,
                        c,
                        i,
                    ) {
                    let i = choose|i: int|
                        0 <= i < start && releases(
                            list,
                            records@,
                            capacities@,
                            constraints,
                            costs,
                            c,
                            i,
                        );
                    assert(releases(list, records@, capacities@, constraints, costs, c, i));
                }
                records.membership(own);
                if records@.contains(own) && must_release(
                    records@,
                    capacities@,
                    constraints,
                    costs,
                    resource,
                    c.net,
                ) {
                    let i = list.index_of(own);
                    assert(list[i].resource == resource);
                    assert(releases(list, records@, capacities@, constraints, costs, c, i));
                }
                if exists|i: int|
                    0 <= i < end && releases(
                        list,
                        records@,
                        capacities@,
                        constraints,
                        costs,
                        c,
                        i,
                    ) {
                    let i = choose|i: int|
                        0 <= i < end && releases(
                            list,
                            records@,
                            capacities@,
                            constraints,
                            costs,
                            c,
                            i,
                        );
                    if i < start {
                        assert(releases(list, records@, capacities@, constraints, costs, c, i));
                    } else {
                        assert(list[i].resource == resource);
                        assert(list.contains(list[i]));
                    }
                }
            }
        }
        start = end;
    }
    proof {
        assert forall|c: Connection| #[trigger] dirty@.contains(c) <==> old(dirty)@.contains(c)
            || is_victim(records@, capacities@, constraints, costs, c) by {
            if exists|i: int|
                0 <= i < start && releases(
                    list,
                    records@,
                    capacities@,
                    constraints,
                    costs,
                    c,
                    i,
                ) {
                let i = choose|i: int|
                    0 <= i < start && releases(
                        list,
                        records@,
                        capacities@,
                        constraints,
                        costs,
                        c,
                        i,
                    );
                assert(list.contains(list[i]));
                records.membership(list[i]);
                let resource = list[i].resource;
                assert(records@.contains(
                    ConnectionOwner { resource, net: c.net, sink: Some(c.sink) },
                ));
            }
            if is_victim(records@, capacities@, constraints, costs, c) {
                let resource = choose|resource: usize| #[trigger]
                    records@.contains(
                        ConnectionOwner { resource, net: c.net, sink: Some(c.sink) },
                    ) && must_release(records@, capacities@, constraints, costs, resource, c.net);
                let own = ConnectionOwner { resource, net: c.net, sink: Some(c.sink) };
                records.membership(own);
                let i = list.index_of(own);
                assert(releases(list, records@, capacities@, constraints, costs, c, i));
            }
        }
    }
}

/// The record at a position is one of the connection, on a resource that its net gives up.
spec fn releases(
    list: Seq<ConnectionOwner>,
    records: Set<ConnectionOwner>,
    capacities: Seq<u16>,
    constraints: &RoutingConstraints,
    costs: Option<&RoutingCosts>,
    connection: Connection,
    index: int,
) -> bool {
    &&& list[index].net == connection.net
    &&& list[index].sink == Some(connection.sink)
    &&& must_release(
        records,
        capacities,
        constraints,
        costs,
        list[index].resource,
        connection.net,
    )
}

} // verus!
