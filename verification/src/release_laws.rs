//! Which connections give way, and which nets are rebuilt first.

use vstd::prelude::*;

use crate::eco_nets::{is_rebuild_order, NetPriority};
use crate::model::{CellPinId, Connection, Design, NetId};
use crate::ordered::OrderedKey;
use crate::routing_constraints::RoutingConstraints;
use crate::routing_costs::RoutingCosts;
use crate::timing_laws::{connection_criticality, listed_criticality};
use crate::victims::{
    is_victim, must_release, owner_locked, ranking, ranks, ConnectionOwner,
    RankedConnectionOwner,
};

verus! {

/// A connection that an immutable route reaches is never released, and one that is
/// released uses the resource that it is released from.
pub proof fn an_immutable_connection_is_never_released(
    records: Set<ConnectionOwner>,
    capacities: Seq<u16>,
    constraints: &RoutingConstraints,
    costs: Option<&RoutingCosts>,
    connection: Connection,
)
    requires
        is_victim(records, capacities, constraints, costs, connection),
    ensures
        constraints.routes@.contains_key(connection.net) ==> forall|i: int|
            0 <= i < constraints.routes@[connection.net].arcs@.len() ==> (
            #[trigger] constraints.routes@[connection.net].arcs@[i]).sink != Some(
                connection.sink,
            ),
        exists|resource: usize| #[trigger]
            records.contains(
                ConnectionOwner { resource, net: connection.net, sink: Some(connection.sink) },
            ),
{
    let resource = choose|resource: usize| #[trigger]
        records.contains(
            ConnectionOwner { resource, net: connection.net, sink: Some(connection.sink) },
        ) && must_release(records, capacities, constraints, costs, resource, connection.net);
    assert(records.contains(
        ConnectionOwner { resource, net: connection.net, sink: Some(connection.sink) },
    ));
}

/// A resource that carries several nets keeps the most critical ones: no connection of a
/// net that is released from it is more critical, by the caller's tables, than every
/// connection by which a net that stays uses it.
pub proof fn a_released_net_is_no_more_critical(
    records: Set<ConnectionOwner>,
    capacities: Seq<u16>,
    constraints: &RoutingConstraints,
    costs: Option<&RoutingCosts>,
    resource: usize,
    released: NetId,
    kept: NetId,
    sink: CellPinId,
    other: CellPinId,
) -> (best: CellPinId)
    requires
        ranking(records, constraints, costs, resource).finite(),
        capacities[resource as int] != 1,
        must_release(records, capacities, constraints, costs, resource, released),
        !must_release(records, capacities, constraints, costs, resource, kept),
        !owner_locked(records, constraints, resource, released),
        !owner_locked(records, constraints, resource, kept),
        records.contains(ConnectionOwner { resource, net: released, sink: Some(sink) }),
        records.contains(ConnectionOwner { resource, net: kept, sink: Some(other) }),
        exists|entry: RankedConnectionOwner|
            entry.net == kept && #[trigger] ranks(records, constraints, costs, resource, entry),
    ensures
        records.contains(ConnectionOwner { resource, net: kept, sink: Some(best) }),
        connection_criticality(costs, kept, best) >= connection_criticality(
            costs,
            released,
            sink,
        ),
{
    let all = ranking(records, constraints, costs, resource);
    let capacity = capacities[resource as int] as nat;
    let a = choose|entry: RankedConnectionOwner|
        {
            &&& #[trigger] all.contains(entry)
            &&& entry.net == released
            &&& all.filter(|other: RankedConnectionOwner| other.rank() < entry.rank()).len()
                >= capacity
        };
    let b = choose|entry: RankedConnectionOwner|
        entry.net == kept && #[trigger] ranks(records, constraints, costs, resource, entry);
    assert(all.contains(b));
    let before = all.filter(|other: RankedConnectionOwner| other.rank() < a.rank());
    let ahead = all.filter(|other: RankedConnectionOwner| other.rank() < b.rank());
    if a.rank() <= b.rank() {
        assert(before.subset_of(ahead));
        vstd::set_lib::lemma_len_subset(before, ahead);
        assert(must_release(records, capacities, constraints, costs, resource, kept));
    }
    lemma_owner_digits(b, a);
    assert(records.contains(ConnectionOwner { resource, net: kept, sink: Some(other) }));
    let best = choose|best: CellPinId| #[trigger]
        records.contains(ConnectionOwner { resource, net: kept, sink: Some(best) })
            && crate::routing_costs::arc_criticality(costs, kept, best) == b.criticality;
    assert(crate::routing_costs::arc_criticality(costs, released, sink) <= a.criticality);
    best
}

/// Movable owners in order compare by their criticality.
proof fn lemma_owner_digits(a: RankedConnectionOwner, b: RankedConnectionOwner)
    requires
        a.rank() < b.rank(),
        a.locked == b.locked,
    ensures
        a.criticality >= b.criticality,
{
}

/// The criticality of a net in a cohort: the greatest of its sinks by the caller's
/// tables, or without a sink that of the net.
pub open spec fn is_cohort_weight(
    design: &Design,
    costs: &RoutingCosts,
    net: NetId,
    weight: int,
) -> bool {
    let sinks = design.nets@[net.0 as int].sinks@;
    if sinks.len() == 0 {
        weight == listed_criticality(Some(costs), net)
    } else {
        &&& forall|k: int|
            0 <= k < sinks.len() ==> connection_criticality(
                Some(costs),
                net,
                #[trigger] sinks[k],
            ) <= weight
        &&& exists|k: int|
            0 <= k < sinks.len() && connection_criticality(Some(costs), net, #[trigger] sinks[k])
                == weight
    }
}

/// The greatest criticality of some sinks.
proof fn lemma_sink_maximum(costs: &RoutingCosts, net: NetId, sinks: Seq<CellPinId>)
    ensures
        forall|k: int|
            0 <= k < sinks.len() ==> connection_criticality(
                Some(costs),
                net,
                #[trigger] sinks[k],
            ) <= crate::eco_nets::sink_maximum(costs, net, sinks),
        sinks.len() > 0 ==> exists|k: int|
            0 <= k < sinks.len() && connection_criticality(Some(costs), net, #[trigger] sinks[k])
                == crate::eco_nets::sink_maximum(costs, net, sinks),
    decreases sinks.len(),
{
    if sinks.len() > 0 {
        let rest = sinks.drop_last();
        lemma_sink_maximum(costs, net, rest);
        let most = crate::eco_nets::sink_maximum(costs, net, sinks);
        assert(sinks[sinks.len() - 1] == sinks.last());
        assert forall|k: int| 0 <= k < sinks.len() implies connection_criticality(
            Some(costs),
            net,
            #[trigger] sinks[k],
        ) <= most by {
            if k < sinks.len() - 1 {
                assert(rest[k] == sinks[k]);
            }
        }
        if connection_criticality(Some(costs), net, sinks.last()) != most {
            if rest.len() > 0 {
                let k = choose|k: int|
                    0 <= k < rest.len() && connection_criticality(
                        Some(costs),
                        net,
                        #[trigger] rest[k],
                    ) == crate::eco_nets::sink_maximum(costs, net, rest);
                assert(sinks[k] == rest[k]);
            }
        }
    }
}

/// The nets of a cohort are rebuilt in the order of their criticality, the greatest
/// first, and of two alike the one with the lesser number.
pub proof fn a_cohort_is_rebuilt_by_criticality(
    design: &Design,
    costs: &RoutingCosts,
    selected: Set<NetId>,
    order: Seq<NetPriority>,
    i: int,
    j: int,
) -> (weights: (int, int))
    requires
        is_rebuild_order(design, costs, selected, order),
        0 <= i < j < order.len(),
    ensures
        is_cohort_weight(design, costs, order[i].net, weights.0),
        is_cohort_weight(design, costs, order[j].net, weights.1),
        weights.0 >= weights.1,
        weights.0 == weights.1 ==> order[i].net.0 < order[j].net.0,
{
    lemma_sink_maximum(costs, order[i].net, design.nets@[order[i].net.0 as int].sinks@);
    lemma_sink_maximum(costs, order[j].net, design.nets@[order[j].net.0 as int].sinks@);
    assert(order[i].rank() <= order[j].rank());
    assert(order[i].net != order[j].net);
    (order[i].criticality as int, order[j].criticality as int)
}

} // verus!
