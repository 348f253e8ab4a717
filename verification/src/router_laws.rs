//! Nets are routed by what the caller gave.

use std::sync::Arc;

use vstd::prelude::*;

use crate::device::UnifiedGraph;
use crate::eco_stage::{estimates_with, is_hard_router, is_room, searched};
use crate::growth_model::GrowthPoint;
use crate::hold_laws::{a_hold_sink_joins_late, delay_sum};
use crate::model::{CellPinId, Connection, NetId, PipId, WireId};
use crate::net_growth::NetRouter;
use crate::occupancy::{pip_sets, users, wire_sets};
use crate::placement::{pin_wire, Placement};
use crate::route::{NetRoute, RouteArc};
use crate::routing_constraints::RoutingConstraints;
use crate::routing_costs::RoutingCosts;
use crate::search::{MetResources, RouteSearch};
use crate::trial::Trial;
use crate::workspace::RoutingWorkspace;

verus! {

/// The router works on the caller's graph, placement and costs, and forbids exactly the
/// PIPs that the caller forbids.
pub open spec fn works_for(
    router: NetRouter<'_>,
    graph: UnifiedGraph<'_>,
    placement: &Placement,
    constraints: &RoutingConstraints,
    costs: Option<&RoutingCosts>,
) -> bool {
    &&& router.graph == graph
    &&& router.placement == placement
    &&& router.costs == costs
    &&& forall|p: PipId|
        constraints.blocked_pips@.contains(p) <==> #[trigger] crate::search::blocked_in(
            router.blocked_pip_words@,
            p,
        )
}

/// In a negotiation a net grows by the caller's tables, at the prices of the moment, and
/// without regard to what other nets occupy.
pub proof fn a_negotiated_net_grows_by_the_tables<'a>(
    trial: Trial<'a>,
    room: RoutingWorkspace,
    first_iteration: bool,
    net: NetId,
    fixed: Seq<RouteArc>,
    route: NetRoute,
) -> (found: (NetRouter<'a>, MetResources))
    requires
        trial.constraints.wf(),
        trial.buys(room, first_iteration, net, fixed, Ok(route)),
    ensures
        works_for(found.0, trial.graph, trial.placement, trial.constraints, trial.costs),
        found.0.hard_occupancy is None,
        found.0.allow_alternate_source == first_iteration,
        found.0.wire_congestion@ == room.wires.congestion@,
        found.0.pip_congestion@ == room.pips.congestion@,
        found.0.grows(net, fixed, room.search, route, found.1),
{
    reveal(Trial::buys);
    let (router, met) = choose|router: NetRouter<'_>, met: MetResources|
        trial.is_buyer(router, room, first_iteration) && #[trigger] router.grows(
            net,
            fixed,
            room.search,
            route,
            met,
        );
    (router, met)
}

/// A route that is searched for among others grows by the caller's tables and estimate,
/// free of negotiated prices, and under the occupancy of the others.
pub proof fn a_searched_route_grows_among_the_others<'a>(
    graph: UnifiedGraph<'a>,
    placement: &'a Placement,
    constraints: &'a RoutingConstraints,
    costs: &'a RoutingCosts,
    delay_per_tile_ps: u64,
    slots: Seq<Option<Arc<NetRoute>>>,
    net: NetId,
    fixed: Seq<RouteArc>,
    route: NetRoute,
) -> (found: (NetRouter<'a>, RouteSearch, MetResources))
    requires
        constraints.wf(),
        searched(
            graph,
            placement,
            constraints,
            costs,
            delay_per_tile_ps,
            slots,
            net,
            fixed,
            Some(route),
        ),
    ensures
        works_for(found.0, graph, placement, constraints, Some(costs)),
        found.1.estimate_delay_per_tile_ps == delay_per_tile_ps,
        found.0.hard_occupancy matches Some(occupancy) && (forall|w: int|
            0 <= w < graph.device.wires@.len() ==> #[trigger] occupancy.wires@[w] == users(
                wire_sets(slots),
                w,
            )) && (forall|p: int|
            0 <= p < graph.device.pips@.len() ==> #[trigger] occupancy.pips@[p] == users(
                pip_sets(slots),
                p,
            )),
        forall|w: int|
            0 <= w < graph.device.wires@.len() ==> #[trigger] found.0.metadata.wire_capacities@[w]
                == graph.device.wires@[w].capacity,
        forall|p: int|
            0 <= p < graph.device.pips@.len() ==> #[trigger] found.0.metadata.pip_capacities@[p]
                == graph.device.pips@[p].capacity,
        found.0.grows(net, fixed, found.1, route, found.2),
{
    let room = choose|room: RoutingWorkspace|
        #[trigger] is_room(graph.device, slots, room) && crate::eco_stage::is_regrowth(
            graph,
            placement,
            constraints,
            costs,
            room,
            delay_per_tile_ps,
            net,
            fixed,
            route,
        );
    let (router, search, met) = choose|
        router: NetRouter<'_>,
        search: RouteSearch,
        met: MetResources,
    |
        {
            &&& is_hard_router(router, graph, placement, constraints, costs, room, true)
            &&& estimates_with(search, delay_per_tile_ps)
            &&& #[trigger] router.grows(net, fixed, search, route, met)
        };
    let occupancy = router.hard_occupancy->0;
    assert forall|w: int| 0 <= w < graph.device.wires@.len() implies #[trigger] occupancy.wires@[w]
        == users(wire_sets(slots), w) by {
        assert(room.wires.occupancy@[w] == users(wire_sets(slots), w));
    }
    assert forall|p: int| 0 <= p < graph.device.pips@.len() implies #[trigger] occupancy.pips@[p]
        == users(pip_sets(slots), p) by {
        assert(room.pips.occupancy@[p] == users(pip_sets(slots), p));
    }
    (router, search, met)
}

/// The sink is served late enough: the tree arrives at its wire no earlier than asked,
/// or a path from the tree does by its minimum delays, exactly under hard occupancy and
/// otherwise but for the width of a delay bucket for each PIP.
pub open spec fn is_served_late(
    router: NetRouter<'_>,
    costs: &RoutingCosts,
    goal: WireId,
    minimum: u64,
    before: GrowthPoint,
    path: (Vec<WireId>, Vec<PipId>),
) -> bool {
    ||| before.arrivals[goal.0 as int] >= minimum
    ||| before.arrivals[path.0@.last().0 as int] + delay_sum(costs.pip_min_delays_ps@, path.1@)
        + if router.hard_occupancy is Some {
        0
    } else {
        50 * path.1@.len()
    } >= minimum
}

/// Every sink of a grown net that has an entry in the caller's table of minimum route
/// delays is served late enough.
pub proof fn every_hold_sink_of_a_grown_net_is_late(
    router: NetRouter<'_>,
    costs: &RoutingCosts,
    net: NetId,
    fixed: Seq<RouteArc>,
    estimates: RouteSearch,
    route: NetRoute,
    met: MetResources,
    sink: int,
) -> (found: (WireId, GrowthPoint, (Vec<WireId>, Vec<PipId>)))
    requires
        router.costs == Some(costs),
        router.grows(net, fixed, estimates, route, met),
        0 <= sink < router.graph.design.nets@[net.0 as int].sinks@.len(),
        ({
            let connection = Connection {
                net,
                sink: router.graph.design.nets@[net.0 as int].sinks@[sink],
            };
            &&& costs.sink_min_delays_ps@.contains_key(connection)
            &&& 0 < costs.sink_min_delays_ps@[connection] <= u32::MAX * 50
        }),
    ensures
        pin_wire(
            router.graph,
            router.placement,
            router.graph.design.nets@[net.0 as int].sinks@[sink],
        ) == Some(found.0),
        is_served_late(
            router,
            costs,
            found.0,
            costs.sink_min_delays_ps@[Connection {
                net,
                sink: router.graph.design.nets@[net.0 as int].sinks@[sink],
            }],
            found.1,
            found.2,
        ),
{
    let sinks = router.graph.design.nets@[net.0 as int].sinks@;
    let pin = sinks[sink];
    let (order, chain) = choose|order: Seq<CellPinId>, chain: Seq<GrowthPoint>|
        {
            &&& #[trigger] router.is_growth(net, fixed, estimates, order, chain)
            &&& chain.len() == order.len() + 1
            &&& chain.last().met == met
        };
    let i = crate::ordered::lemma_counterpart(sinks, order, sink);
    assert(router.is_growth_step(net, estimates, order, chain, i));
    let before = chain[i];
    let after = chain[i + 1];
    let goal = pin_wire(router.graph, router.placement, pin)->0;
    let minimum = costs.sink_min_delays_ps@[Connection { net, sink: pin }];
    if before.arrivals[goal.0 as int] >= minimum {
        (goal, before, arbitrary())
    } else {
        let path = choose|path: (Vec<WireId>, Vec<PipId>)|
            #[trigger] router.finds_path(net, pin, goal, estimates, before, path, after.met);
        a_hold_sink_joins_late(
            router,
            net,
            pin,
            goal,
            estimates,
            before,
            path,
            after.met,
            costs,
        );
        (goal, before, path)
    }
}

} // verus!
