//! Steps that every legal route change shares: validating the incumbent,
//! loading it as occupancy, and growing a net inside what is left.

use std::sync::Arc;

use vstd::prelude::*;
use vstd::string::*;

use crate::device::{Device, UnifiedGraph};
use crate::error::PnrError;
use crate::model::{NetId, PipId, WireId};
use crate::net_growth::{costs_fit, NetRouter};
use crate::net_routing::{arcs_fit, consistent, driver_wire, takes_hop};
use crate::net_state::{arcs_kept, topology_locked, unblocked_hop};
use crate::occupancy::{pip_sets, wire_sets, ResourceTable};
use crate::placement::{pin_wire, PinWireCache, Placement};
use crate::route::{NetRoute, RouteArc};
use crate::routing_constraints::{words_of, RoutingConstraints};
use crate::routing_costs::{share, RoutingCosts};
use crate::search::{
    blocked_in, HardRoutingBlockers, HardRoutingOccupancy, MetResources, RouteSearch,
    RoutingResourceMetadata,
    ROUTING_ESTIMATE_BASE_DELAY_PS,
};
use crate::text::{decimal_text, twice_numbered};
use crate::validation::{
    constraint_defect, constraints_fit, restrictions_fit, route_fits, validate_routing_constraints,
};
use crate::workspace::{constraint_slot, constraint_slots, countable, filled, slot_fits, slots_fit, RoutingWorkspace};

verus! {

/// The routes stand at the positions of their nets.
pub open spec fn stored_in_order(routes: Seq<Arc<NetRoute>>) -> bool {
    forall|i: int| 0 <= i < routes.len() ==> (#[trigger] routes[i]).net.0 == i
}

/// Every route fits the placement, the device, and the forbidden PIPs.
pub open spec fn incumbent_fits(
    graph: UnifiedGraph<'_>,
    placement: &Placement,
    constraints: &RoutingConstraints,
    routes: Seq<Arc<NetRoute>>,
) -> bool {
    &&& routes.len() == graph.design.nets@.len()
    &&& stored_in_order(routes)
    &&& restrictions_fit(graph.device, constraints)
    &&& forall|n: NetId| #[trigger]
        constraints.routes@.contains_key(n) ==> n.0 < graph.design.nets@.len()
    &&& forall|i: int|
        0 <= i < routes.len() ==> route_fits(
            graph,
            placement,
            constraints,
            (#[trigger] routes[i]).net,
            *routes[i],
        )
}

/// The constraints with every route in the place of its net's constraint.
pub open spec fn overlays(
    constraints: &RoutingConstraints,
    routes: Seq<Arc<NetRoute>>,
    count: int,
    complete: &RoutingConstraints,
) -> bool {
    &&& complete.blocked_pips@ == constraints.blocked_pips@
    &&& forall|n: NetId| #[trigger]
        complete.routes@.contains_key(n) <==> constraints.routes@.contains_key(n) || n.0 < count
    &&& forall|n: NetId| #[trigger]
        complete.routes@.contains_key(n) ==> complete.routes@[n] == if n.0 < count {
            routes[n.0 as int]
        } else {
            constraints.routes@[n]
        }
}

/// Why the incumbent was refused: the first route that stands at another net's
/// index, else what is wrong with the constraints that hold every route.
pub open spec fn incumbent_defect(
    graph: UnifiedGraph<'_>,
    placement: &Placement,
    constraints: &RoutingConstraints,
    routes: Seq<Arc<NetRoute>>,
    error: PnrError,
) -> bool {
    if stored_in_order(routes) {
        exists|complete: RoutingConstraints|
            {
                &&& #[trigger] overlays(constraints, routes, routes.len() as int, &complete)
                &&& constraint_defect(graph, placement, &complete, error)
            }
    } else {
        exists|i: int|
            {
                &&& 0 <= i < routes.len()
                &&& (#[trigger] routes[i]).net.0 != i
                &&& stored_in_order(routes.take(i))
                &&& error matches PnrError::InvalidRoutingConstraint { net, reason } && net
                    == routes[i].net && reason@ == "incumbent route tree "@ + decimal_text(
                    routes[i].net.0 as nat,
                ) + " is stored at net index "@ + decimal_text(i as nat) + ""@
            }
    }
}

/// Puts every route in the place of its net's constraint and validates the whole.
pub(crate) fn check_incumbent(
    graph: &UnifiedGraph<'_>,
    placement: &Placement,
    pin_wires: &PinWireCache,
    constraints: &RoutingConstraints,
    routes: &Vec<Arc<NetRoute>>,
) -> (result: Result<RoutingConstraints, PnrError>)
    requires
        graph.wf(),
        placement.fits(graph.device),
        pin_wires.holds(*graph, placement),
        constraints.wf(),
        routes@.len() == graph.design.nets@.len(),
        forall|i: int| 0 <= i < routes@.len() ==> (#[trigger] routes@[i]).wf(),
    ensures
        match result {
            Ok(complete) => {
                &&& incumbent_fits(*graph, placement, constraints, routes@)
                &&& complete.wf()
                &&& overlays(constraints, routes@, routes@.len() as int, &complete)
                &&& constraints_fit(*graph, placement, &complete)
            },
            Err(error) => {
                &&& !incumbent_fits(*graph, placement, constraints, routes@)
                &&& incumbent_defect(*graph, placement, constraints, routes@, error)
            },
        },
{
    let mut complete = constraints.copied();
    let mut index: usize = 0;
    while index < routes.len()
        invariant
            index <= routes@.len(),
            routes@.len() == graph.design.nets@.len(),
            forall|i: int| 0 <= i < routes@.len() ==> (#[trigger] routes@[i]).wf(),
            forall|i: int| 0 <= i < index ==> (#[trigger] routes@[i]).net.0 == i,
            complete.wf(),
            overlays(constraints, routes@, index as int, &complete),
        decreases routes@.len() - index,
    {
        let route = &routes[index];
        if route.net.0 != index {
            proof {
                assert(routes@[index as int].net.0 != index);
                assert(stored_in_order(routes@.take(index as int)));
            }
            return Err(
                PnrError::InvalidRoutingConstraint {
                    net: route.net,
                    reason: twice_numbered(
                        "incumbent route tree ",
                        route.net.0 as u64,
                        " is stored at net index ",
                        index as u64,
                        "",
                    ),
                },
            );
        }
        let ghost before = complete;
        complete.add_route(share(route));
        proof {
            assert forall|n: NetId| #[trigger] complete.routes@.contains_key(n)
                <==> constraints.routes@.contains_key(n) || n.0 < index + 1 by {
                assert(before.routes@.contains_key(n) <==> constraints.routes@.contains_key(n)
                    || n.0 < index);
            }
            assert forall|n: NetId| #[trigger]
                complete.routes@.contains_key(n) implies complete.routes@[n] == if n.0 < index + 1 {
                routes@[n.0 as int]
            } else {
                constraints.routes@[n]
            } by {
                if n != route.net {
                    assert(before.routes@.contains_key(n));
                }
            }
        }
        index = index + 1;
    }
    assert(stored_in_order(routes@));
    let outcome = validate_routing_constraints(graph, placement, pin_wires, &complete);
    proof {
        assert(constraints_fit(*graph, placement, &complete) == incumbent_fits(
            *graph,
            placement,
            constraints,
            routes@,
        )) by {
            if constraints_fit(*graph, placement, &complete) {
                assert forall|n: NetId| #[trigger] constraints.routes@.contains_key(n) implies n.0
                    < graph.design.nets@.len() by {
                    assert(complete.routes@.contains_key(n));
                }
                assert forall|i: int| 0 <= i < routes@.len() implies route_fits(
                    *graph,
                    placement,
                    constraints,
                    (#[trigger] routes@[i]).net,
                    *routes@[i],
                ) by {
                    let n = routes@[i].net;
                    assert(complete.routes@.contains_key(n));
                    assert(route_fits(*graph, placement, &complete, n, *complete.routes@[n]));
                }
            }
            if incumbent_fits(*graph, placement, constraints, routes@) {
                assert forall|n: NetId| #[trigger] complete.routes@.contains_key(n) implies route_fits(
                    *graph,
                    placement,
                    &complete,
                    n,
                    *complete.routes@[n],
                ) by {
                    assert(n.0 < routes@.len());
                    let i = n.0 as int;
                    assert(route_fits(*graph, placement, constraints, routes@[i].net, *routes@[i]));
                }
            }
        }
    }
    match outcome {
        Err(error) => Err(error),
        Ok(()) => Ok(complete),
    }
}

/// Loads the routes as the only occupancy; false where a counter is full.
pub(crate) fn load_incumbent(
    graph: &UnifiedGraph<'_>,
    complete: &RoutingConstraints,
    Ghost(placement): Ghost<&Placement>,
    Ghost(constraints): Ghost<&RoutingConstraints>,
    routes: &Vec<Arc<NetRoute>>,
    workspace: &mut RoutingWorkspace,
) -> (result: bool)
    requires
        graph.wf(),
        placement.fits(graph.device),
        complete.wf(),
        incumbent_fits(*graph, placement, constraints, routes@),
        overlays(constraints, routes@, routes@.len() as int, complete),
        old(workspace).wf(),
    ensures
        final(workspace).wf(),
        final(workspace).fits(graph.device),
        !final(workspace).resident_valid,
        old(workspace).is_ready() ==> final(workspace).is_ready(),
        old(workspace).fits(graph.device) ==> final(workspace).search == old(workspace).search,
        result ==> {
            &&& final(workspace).unpriced()
            &&& slots_fit(
                filled(routes@),
                final(workspace).wire_count(),
                final(workspace).pip_count(),
            )
            &&& final(workspace).wires.counts(wire_sets(filled(routes@)))
            &&& final(workspace).pips.counts(pip_sets(filled(routes@)))
            &&& final(workspace).wires.history_at_most(0)
            &&& final(workspace).pips.history_at_most(0)
        },
        !result ==> !countable(
            filled(routes@),
            graph.device.wires@.len() as int,
            graph.device.pips@.len() as int,
        ),
{
    workspace.resident_valid = false;
    proof {
        assert(graph.design.nets.len() == graph.design.nets@.len());
        assert forall|n: NetId| #[trigger] complete.routes@.contains_key(n) implies n.0
            < routes@.len() && slot_fits(
            Some(complete.routes@[n]),
            graph.device.wires@.len() as int,
            graph.device.pips@.len() as int,
        ) by {
            assert(n.0 < routes@.len());
            let i = n.0 as int;
            assert(route_fits(*graph, placement, constraints, routes@[i].net, *routes@[i]));
            crate::net_state::lemma_arcs_slot_fits(*graph, placement, n, routes@[i]);
        }
    }
    proof {
        let count = routes@.len() as int;
        assert forall|i: int| 0 <= i < count implies #[trigger] constraint_slots(complete, count)[i]
            == filled(routes@)[i] by {
            let n = NetId(i as usize);
            assert(complete.routes@.contains_key(n));
        }
        assert(constraint_slots(complete, count) =~= filled(routes@));
    }
    match workspace.prepare_routes(graph.device(), routes.len(), complete) {
        None => false,
        Some(slots) => {
            proof {
                assert forall|i: int| 0 <= i < slots@.len() implies slots@[i] == #[trigger] filled(
                    routes@,
                )[i] by {
                    assert(slots@[i] == constraint_slot(complete, i));
                    assert(constraint_slots(complete, routes@.len() as int)[i]
                        == constraint_slot(complete, i));
                }
                assert(slots@ =~= filled(routes@));
            }
            true
        },
    }
}

/// No counter is above its capacity.
pub open spec fn is_legal(table: ResourceTable) -> bool {
    forall|r: int|
        0 <= r < table.occupancy@.len() ==> #[trigger] table.occupancy@[r] <= table.capacities@[r]
}

/// First overused resource, in the order in which the resources were touched.
fn first_overused(table: &ResourceTable) -> (result: Option<usize>)
    requires
        table.wf(table.capacities@.len() as int),
    ensures
        match result {
            Some(r) => r < table.occupancy@.len() && table.occupancy@[r as int]
                > table.capacities@[r as int],
            None => is_legal(*table),
        },
{
    let ghost count = table.capacities@.len() as int;
    let mut index: usize = 0;
    while index < table.touched.len()
        invariant
            index <= table.touched@.len(),
            count == table.capacities@.len(),
            table.wf(count),
            forall|i: int|
                0 <= i < index ==> table.occupancy@[(#[trigger] table.touched@[i]) as int]
                    <= table.capacities@[table.touched@[i] as int],
        decreases table.touched@.len() - index,
    {
        let resource: usize = table.touched[index];
        assert(table.touched@[index as int] < count);
        if table.occupancy[resource] > table.capacities[resource] {
            return Some(resource);
        }
        index = index + 1;
    }
    proof {
        assert(table.capacities.len() == count);
        assert forall|r: int| 0 <= r < table.occupancy@.len() implies #[trigger] table.occupancy@[r]
            <= table.capacities@[r] by {
            assert(table.listed(r));
            if table.occupancy@[r] > 0 {
                assert(table.touched@.contains(r as usize));
                let i = table.touched@.index_of(r as usize);
                assert(table.touched@[i] as int == r);
            }
        }
    }
    None
}

/// Text on an overused resource.
pub open spec fn overuse_text(
    what: Seq<char>,
    index: nat,
    occupancy: nat,
    capacity: nat,
) -> Seq<char> {
    what + decimal_text(index) + ": "@ + decimal_text(occupancy) + "/"@ + decimal_text(capacity)
}

/// The text names an overused resource with its users and its capacity.
pub open spec fn reports_overuse(table: ResourceTable, what: Seq<char>, text: Seq<char>) -> bool {
    exists|r: int|
        {
            &&& 0 <= r < table.occupancy@.len()
            &&& #[trigger] table.occupancy@[r] > table.capacities@[r]
            &&& text == overuse_text(
                what,
                r as nat,
                table.occupancy@[r] as nat,
                table.capacities@[r] as nat,
            )
        }
}

/// Builds the text on an overused resource.
fn describe_overuse(what: &str, index: usize, occupancy: u16, capacity: u16) -> (result: String)
    ensures
        result@ == overuse_text(what@, index as nat, occupancy as nat, capacity as nat),
{
    let mut text = twice_numbered(what, index as u64, ": ", occupancy as u64, "/");
    crate::text::append_decimal(&mut text, capacity as u64);
    text
}

/// Reports the first resource that is used above its capacity.
pub(crate) fn validate_legal_eco_capacity(
    workspace: &RoutingWorkspace,
    net: NetId,
    wire_text: &str,
    pip_text: &str,
) -> (result: Result<(), PnrError>)
    requires
        workspace.wf(),
        workspace.wires.capacities@.len() == workspace.wire_count(),
    ensures
        match result {
            Ok(()) => is_legal(workspace.wires) && is_legal(workspace.pips),
            Err(error) => {
                &&& !is_legal(workspace.wires) || !is_legal(workspace.pips)
                &&& error matches PnrError::InvalidRoutingConstraint { net: reported, reason }
                    && reported == net && (reports_overuse(workspace.wires, wire_text@, reason@)
                    || reports_overuse(workspace.pips, pip_text@, reason@))
            },
        },
{
    if let Some(wire) = first_overused(&workspace.wires) {
        let ghost r = wire as int;
        let occupancy: u16 = workspace.wires.occupancy[wire];
        let capacity: u16 = workspace.wires.capacities[wire];
        let reason = describe_overuse(wire_text, wire, occupancy, capacity);
        proof {
            assert(!is_legal(workspace.wires));
            assert(workspace.wires.occupancy@[r] > workspace.wires.capacities@[r]);
            assert(reports_overuse(workspace.wires, wire_text@, reason@));
        }
        return Err(PnrError::InvalidRoutingConstraint { net, reason });
    }
    if let Some(pip) = first_overused(&workspace.pips) {
        let ghost r = pip as int;
        let occupancy: u16 = workspace.pips.occupancy[pip];
        let capacity: u16 = workspace.pips.capacities[pip];
        let reason = describe_overuse(pip_text, pip, occupancy, capacity);
        proof {
            assert(!is_legal(workspace.pips));
            assert(workspace.pips.occupancy@[r] > workspace.pips.capacities@[r]);
            assert(reports_overuse(workspace.pips, pip_text@, reason@));
        }
        return Err(PnrError::InvalidRoutingConstraint { net, reason });
    }
    Ok(())
}

/// The driver and every sink of the net stand on wires.
pub open spec fn net_bound(graph: UnifiedGraph<'_>, placement: &Placement, net: NetId) -> bool {
    let record = graph.design.nets@[net.0 as int];
    &&& driver_wire(graph, placement, net) is Some
    &&& forall|k: int|
        0 <= k < record.sinks@.len() ==> pin_wire(
            graph,
            placement,
            #[trigger] record.sinks@[k],
        ) is Some
}

/// The hop is not forbidden, and both its PIP and its wire have room.
pub open spec fn roomy_hop(
    device: &Device,
    constraints: &RoutingConstraints,
    workspace: RoutingWorkspace,
    from: WireId,
    pip: PipId,
    to: WireId,
) -> bool {
    &&& unblocked_hop(device, constraints, from, pip, to)
    &&& workspace.wires.occupancy@[to.0 as int] < workspace.wires.capacities@[to.0 as int]
    &&& workspace.pips.occupancy@[pip.0 as int] < workspace.pips.capacities@[pip.0 as int]
}

/// Every hop of the arcs is one of the fixed arcs or has room.
pub open spec fn hops_roomy(
    graph: UnifiedGraph<'_>,
    constraints: &RoutingConstraints,
    workspace: RoutingWorkspace,
    fixed: Seq<RouteArc>,
    arcs: Seq<RouteArc>,
) -> bool {
    forall|i: int, k: int|
        #![trigger arcs[i].pips@[k]]
        0 <= i < arcs.len() && 0 <= k < arcs[i].pips@.len() ==> takes_hop(
            fixed,
            arcs[i].wires@[k],
            arcs[i].pips@[k],
            arcs[i].wires@[k + 1],
        ) || roomy_hop(
            graph.device,
            constraints,
            workspace,
            arcs[i].wires@[k],
            arcs[i].pips@[k],
            arcs[i].wires@[k + 1],
        )
}

/// The route serves its net, keeps the fixed arcs, and takes nothing else
/// but hops with room.
pub open spec fn regrown(
    graph: UnifiedGraph<'_>,
    placement: &Placement,
    constraints: &RoutingConstraints,
    workspace: RoutingWorkspace,
    net: NetId,
    fixed: Seq<RouteArc>,
    route: NetRoute,
) -> bool {
    let record = graph.design.nets@[net.0 as int];
    &&& net_bound(graph, placement, net)
    &&& route.net == net
    &&& route.is_fresh()
    &&& arcs_fit(graph, placement, net, driver_wire(graph, placement, net)->0, route.arcs@)
    &&& forall|k: int|
        0 <= k < record.sinks@.len() ==> route.reaches(#[trigger] record.sinks@[k])
    &&& arcs_kept(fixed, route.arcs@)
    &&& topology_locked(fixed, route.arcs@)
    &&& hops_roomy(graph, constraints, workspace, fixed, route.arcs@)
    &&& consistent(fixed) ==> consistent(route.arcs@)
}

/// The router of a net among immovable others.
pub open spec fn is_hard_router(
    router: NetRouter<'_>,
    graph: UnifiedGraph<'_>,
    placement: &Placement,
    constraints: &RoutingConstraints,
    costs: &RoutingCosts,
    workspace: RoutingWorkspace,
    use_estimate: bool,
) -> bool {
    &&& router.graph == graph
    &&& router.placement == placement
    &&& router.blocked_pip_words@ == words_of(constraints.blocked_pip_words)
    &&& router.costs == Some(costs)
    &&& router.hard_occupancy matches Some(occupancy) && occupancy.wires@
        == workspace.wires.occupancy@ && occupancy.pips@ == workspace.pips.occupancy@
        && occupancy.use_estimate == use_estimate
    &&& !router.allow_alternate_source
    &&& router.wire_congestion@ == workspace.wires.congestion@
    &&& router.pip_congestion@ == workspace.pips.congestion@
    &&& router.metadata.wire_points@ == workspace.wire_points@
    &&& router.metadata.wire_capacities@ == workspace.wires.capacities@
    &&& router.metadata.pip_capacities@ == workspace.pips.capacities@
}

/// The search estimates with this delay per tile.
pub open spec fn estimates_with(search: RouteSearch, delay_per_tile_ps: u64) -> bool {
    &&& search.estimate_base_delay_ps == ROUTING_ESTIMATE_BASE_DELAY_PS
    &&& search.estimate_delay_per_tile_ps == delay_per_tile_ps
}

/// The route grows from the fixed arcs by what the search finds in the room.
pub open spec fn is_regrowth(
    graph: UnifiedGraph<'_>,
    placement: &Placement,
    constraints: &RoutingConstraints,
    costs: &RoutingCosts,
    room: RoutingWorkspace,
    delay_per_tile_ps: u64,
    net: NetId,
    fixed: Seq<RouteArc>,
    route: NetRoute,
) -> bool {
    exists|router: NetRouter<'_>, search: RouteSearch, met: MetResources|
        {
            &&& is_hard_router(router, graph, placement, constraints, costs, room, true)
            &&& estimates_with(search, delay_per_tile_ps)
            &&& #[trigger] router.grows(net, fixed, search, route, met)
        }
}

/// The tables count what the slots use, and nothing has a price.
pub open spec fn is_room(
    device: &Device,
    slots: Seq<Option<Arc<NetRoute>>>,
    room: RoutingWorkspace,
) -> bool {
    &&& room.wf()
    &&& room.fits(device)
    &&& room.unpriced()
    &&& room.wires.counts(wire_sets(slots))
    &&& room.pips.counts(pip_sets(slots))
}

/// Searching for a route of the net among the slots ends with this error.
pub open spec fn search_halts(
    graph: UnifiedGraph<'_>,
    placement: &Placement,
    constraints: &RoutingConstraints,
    costs: &RoutingCosts,
    delay_per_tile_ps: u64,
    slots: Seq<Option<Arc<NetRoute>>>,
    net: NetId,
    fixed: Seq<RouteArc>,
    error: PnrError,
) -> bool {
    exists|room: RoutingWorkspace|
        #[trigger] is_room(graph.device, slots, room) && is_halted(
            graph,
            placement,
            constraints,
            costs,
            room,
            delay_per_tile_ps,
            net,
            fixed,
            error,
        )
}

/// The growth from the fixed arcs ends with this error.
pub open spec fn is_halted(
    graph: UnifiedGraph<'_>,
    placement: &Placement,
    constraints: &RoutingConstraints,
    costs: &RoutingCosts,
    room: RoutingWorkspace,
    delay_per_tile_ps: u64,
    net: NetId,
    fixed: Seq<RouteArc>,
    error: PnrError,
) -> bool {
    exists|router: NetRouter<'_>, search: RouteSearch, met: MetResources|
        {
            &&& is_hard_router(router, graph, placement, constraints, costs, room, true)
            &&& estimates_with(search, delay_per_tile_ps)
            &&& #[trigger] router.strands(net, fixed, search, error, met)
        }
}

/// What searching for a route of the net among the slots gives.
pub open spec fn searched(
    graph: UnifiedGraph<'_>,
    placement: &Placement,
    constraints: &RoutingConstraints,
    costs: &RoutingCosts,
    delay_per_tile_ps: u64,
    slots: Seq<Option<Arc<NetRoute>>>,
    net: NetId,
    fixed: Seq<RouteArc>,
    outcome: Option<NetRoute>,
) -> bool {
    exists|room: RoutingWorkspace|
        #[trigger] is_room(graph.device, slots, room) && match outcome {
            None => is_stuck(
                graph,
                placement,
                constraints,
                costs,
                room,
                delay_per_tile_ps,
                net,
                fixed,
            ),
            Some(route) => is_regrowth(
                graph,
                placement,
                constraints,
                costs,
                room,
                delay_per_tile_ps,
                net,
                fixed,
                route,
            ),
        }
}

/// The growth from the fixed arcs ends at a sink that the search cannot reach in the room.
pub open spec fn is_stuck(
    graph: UnifiedGraph<'_>,
    placement: &Placement,
    constraints: &RoutingConstraints,
    costs: &RoutingCosts,
    room: RoutingWorkspace,
    delay_per_tile_ps: u64,
    net: NetId,
    fixed: Seq<RouteArc>,
) -> bool {
    exists|router: NetRouter<'_>, search: RouteSearch, error: PnrError, met: MetResources|
        {
            &&& is_hard_router(router, graph, placement, constraints, costs, room, true)
            &&& estimates_with(search, delay_per_tile_ps)
            &&& error is Unroutable
            &&& router.net_failure(net, error)
            &&& #[trigger] router.strands(net, fixed, search, error, met)
        }
}

/// The route grows from the fixed arcs by what this search finds in the room.
#[verifier::opaque]
pub open spec fn grows_in_room(
    graph: UnifiedGraph<'_>,
    placement: &Placement,
    constraints: &RoutingConstraints,
    costs: &RoutingCosts,
    room: RoutingWorkspace,
    use_estimate: bool,
    net: NetId,
    fixed: Seq<RouteArc>,
    route: NetRoute,
    met: MetResources,
) -> bool {
    exists|router: NetRouter<'_>|
        {
            &&& is_hard_router(router, graph, placement, constraints, costs, room, use_estimate)
            &&& #[trigger] router.grows(net, fixed, room.search, route, met)
        }
}

/// The room gives this reason not to route the net.
#[verifier::opaque]
pub open spec fn fails_in_room(
    graph: UnifiedGraph<'_>,
    placement: &Placement,
    constraints: &RoutingConstraints,
    costs: &RoutingCosts,
    room: RoutingWorkspace,
    use_estimate: bool,
    net: NetId,
    fixed: Seq<RouteArc>,
    error: PnrError,
    met: MetResources,
) -> bool {
    exists|router: NetRouter<'_>|
        {
            &&& is_hard_router(router, graph, placement, constraints, costs, room, use_estimate)
            &&& router.net_failure(net, error)
            &&& #[trigger] router.strands(net, fixed, room.search, error, met)
        }
}

/// What was recorded stays, and resources without room alone are added.
pub open spec fn room_recorded(
    room: RoutingWorkspace,
    before: HardRoutingBlockers,
    after: HardRoutingBlockers,
) -> bool {
    &&& before.wires@.subset_of(after.wires@)
    &&& before.pips@.subset_of(after.pips@)
    &&& forall|w: WireId| #[trigger]
        after.wires@.contains(w) ==> before.wires@.contains(w) || (w.0
            < room.wires.occupancy@.len() && room.wires.occupancy@[w.0 as int]
            >= room.wires.capacities@[w.0 as int])
    &&& forall|p: PipId| #[trigger]
        after.pips@.contains(p) ==> before.pips@.contains(p) || (p.0
            < room.pips.occupancy@.len() && room.pips.occupancy@[p.0 as int]
            >= room.pips.capacities@[p.0 as int])
}

/// Grows the net from its fixed part inside the free capacity, and records
/// what has no room.
pub(crate) fn grow_in_room(
    graph: &UnifiedGraph<'_>,
    placement: &Placement,
    pin_wires: &PinWireCache,
    constraints: &RoutingConstraints,
    costs: &RoutingCosts,
    use_estimate: bool,
    net: NetId,
    fixed: Option<&NetRoute>,
    workspace: &mut RoutingWorkspace,
    blockers: &mut HardRoutingBlockers,
) -> (result: Result<NetRoute, PnrError>)
    requires
        graph.wf(),
        placement.fits(graph.device),
        pin_wires.holds(*graph, placement),
        constraints.wf(),
        costs_fit(graph.device, costs),
        net.0 < graph.design.nets@.len(),
        driver_wire(*graph, placement, net) matches Some(driver) ==> arcs_fit(
            *graph,
            placement,
            net,
            driver,
            NetRouter::fixed_arcs(fixed),
        ),
        old(workspace).wf(),
        old(workspace).fits(graph.device),
        old(blockers).wf(),
    ensures
        final(workspace).wf(),
        *final(workspace) == (RoutingWorkspace {
            search: final(workspace).search,
            tree_arrival_ps: final(workspace).tree_arrival_ps,
            ..*old(workspace)
        }),
        final(workspace).search.same_estimates(&old(workspace).search),
        final(blockers).wf(),
        room_recorded(*old(workspace), *old(blockers), *final(blockers)),
        match result {
            Ok(route) => regrown(
                *graph,
                placement,
                constraints,
                *old(workspace),
                net,
                NetRouter::fixed_arcs(fixed),
                route,
            ) && grows_in_room(
                *graph,
                placement,
                constraints,
                costs,
                *old(workspace),
                use_estimate,
                net,
                NetRouter::fixed_arcs(fixed),
                route,
                final(blockers).met(),
            ),
            Err(error) => {
                &&& fails_in_room(
                    *graph,
                    placement,
                    constraints,
                    costs,
                    *old(workspace),
                    use_estimate,
                    net,
                    NetRouter::fixed_arcs(fixed),
                    error,
                    final(blockers).met(),
                )
                &&& error is Unroutable || ((error is MissingPlacement || error is Model)
                    && !net_bound(*graph, placement, net))
            },
        },
{
    let router = NetRouter {
        graph: *graph,
        placement,
        pin_wires,
        wire_congestion: workspace.wires.congestion.as_slice(),
        pip_congestion: workspace.pips.congestion.as_slice(),
        blocked_pip_words: constraints.blocked_pip_words(),
        hard_occupancy: Some(
            HardRoutingOccupancy {
                wires: workspace.wires.occupancy.as_slice(),
                pips: workspace.pips.occupancy.as_slice(),
                use_estimate,
            },
        ),
        allow_alternate_source: false,
        costs: Some(costs),
        metadata: RoutingResourceMetadata {
            wire_points: workspace.wire_points.as_slice(),
            wire_capacities: workspace.wires.capacities.as_slice(),
            pip_capacities: workspace.pips.capacities.as_slice(),
        },
    };
    assert(is_hard_router(
        router,
        *graph,
        placement,
        constraints,
        costs,
        *old(workspace),
        use_estimate,
    ));
    let outcome = router.route_net(
        fixed,
        net,
        &mut workspace.search,
        &mut workspace.tree_arrival_ps,
        blockers,
    );
    proof {
        reveal(grows_in_room);
        reveal(fails_in_room);
        assert(router.is_bound(net) == net_bound(*graph, placement, net));
        if let Ok(route) = &outcome {
            let arcs = NetRouter::fixed_arcs(fixed);
            assert(router.grows(net, arcs, old(workspace).search, *route, blockers.met()));
            assert forall|i: int, k: int|
                #![trigger route.arcs@[i].pips@[k]]
                0 <= i < route.arcs@.len() && 0 <= k < route.arcs@[i].pips@.len() implies takes_hop(
                arcs,
                route.arcs@[i].wires@[k],
                route.arcs@[i].pips@[k],
                route.arcs@[i].wires@[k + 1],
            ) || roomy_hop(
                graph.device,
                constraints,
                *old(workspace),
                route.arcs@[i].wires@[k],
                route.arcs@[i].pips@[k],
                route.arcs@[i].wires@[k + 1],
            ) by {
                let pip = route.arcs@[i].pips@[k];
                assert(router.hop_granted(
                    arcs,
                    route.arcs@[i].wires@[k],
                    pip,
                    route.arcs@[i].wires@[k + 1],
                ));
                assert(blocked_in(words_of(constraints.blocked_pip_words), pip)
                    == constraints.blocked_pips@.contains(pip));
            }
        }
        if let Err(error) = &outcome {
            assert(router.strands(
                net,
                NetRouter::fixed_arcs(fixed),
                old(workspace).search,
                *error,
                blockers.met(),
            ));
            if error is MissingPlacement {
                lemma_missing_is_unbound(router, net, *error);
            }
        }
    }
    outcome
}

/// Grows the net from its fixed part inside the free capacity.
pub(crate) fn rebuild(
    graph: &UnifiedGraph<'_>,
    placement: &Placement,
    pin_wires: &PinWireCache,
    constraints: &RoutingConstraints,
    costs: &RoutingCosts,
    delay_per_tile_ps: u64,
    net: NetId,
    fixed: Option<&NetRoute>,
    workspace: &mut RoutingWorkspace,
) -> (result: Result<Option<NetRoute>, PnrError>)
    requires
        graph.wf(),
        placement.fits(graph.device),
        pin_wires.holds(*graph, placement),
        constraints.wf(),
        costs_fit(graph.device, costs),
        net.0 < graph.design.nets@.len(),
        driver_wire(*graph, placement, net) matches Some(driver) ==> arcs_fit(
            *graph,
            placement,
            net,
            driver,
            NetRouter::fixed_arcs(fixed),
        ),
        old(workspace).wf(),
        old(workspace).fits(graph.device),
    ensures
        final(workspace).wf(),
        *final(workspace) == (RoutingWorkspace {
            search: final(workspace).search,
            tree_arrival_ps: final(workspace).tree_arrival_ps,
            ..*old(workspace)
        }),
        final(workspace).search.same_estimates(&old(workspace).search),
        match result {
            Ok(Some(route)) => regrown(
                *graph,
                placement,
                constraints,
                *old(workspace),
                net,
                NetRouter::fixed_arcs(fixed),
                route,
            ) && is_regrowth(
                *graph,
                placement,
                constraints,
                costs,
                *old(workspace),
                delay_per_tile_ps,
                net,
                NetRouter::fixed_arcs(fixed),
                route,
            ),
            Ok(None) => is_stuck(
                *graph,
                placement,
                constraints,
                costs,
                *old(workspace),
                delay_per_tile_ps,
                net,
                NetRouter::fixed_arcs(fixed),
            ),
            Err(error) => {
                &&& error is MissingPlacement || error is Model
                &&& !net_bound(*graph, placement, net)
                &&& is_halted(
                    *graph,
                    placement,
                    constraints,
                    costs,
                    *old(workspace),
                    delay_per_tile_ps,
                    net,
                    NetRouter::fixed_arcs(fixed),
                    error,
                )
            },
        },
{
    let base: u64 = workspace.search.estimate_base_delay_ps;
    let per_tile: u64 = workspace.search.estimate_delay_per_tile_ps;
    workspace.search.estimate_base_delay_ps = ROUTING_ESTIMATE_BASE_DELAY_PS;
    workspace.search.estimate_delay_per_tile_ps = delay_per_tile_ps;
    let mut blockers = HardRoutingBlockers::new();
    let ghost room = *workspace;
    let outcome = grow_in_room(
        graph,
        placement,
        pin_wires,
        constraints,
        costs,
        true,
        net,
        fixed,
        workspace,
        &mut blockers,
    );
    let result = match outcome {
        Ok(route) => {
            proof {
                reveal(grows_in_room);
                reveal(fails_in_room);
                let arcs = NetRouter::fixed_arcs(fixed);
                let router = choose|router: NetRouter<'_>|
                    {
                        &&& is_hard_router(
                            router,
                            *graph,
                            placement,
                            constraints,
                            costs,
                            room,
                            true,
                        )
                        &&& #[trigger] router.grows(net, arcs, room.search, route, blockers.met())
                    };
                assert(estimates_with(room.search, delay_per_tile_ps));
                assert(is_hard_router(
                    router,
                    *graph,
                    placement,
                    constraints,
                    costs,
                    *old(workspace),
                    true,
                ));
                assert(router.grows(net, arcs, room.search, route, blockers.met()));
                assert forall|i: int, k: int|
                    #![trigger route.arcs@[i].pips@[k]]
                    0 <= i < route.arcs@.len() && 0 <= k < route.arcs@[i].pips@.len() implies takes_hop(
                    arcs,
                    route.arcs@[i].wires@[k],
                    route.arcs@[i].pips@[k],
                    route.arcs@[i].wires@[k + 1],
                ) || roomy_hop(
                    graph.device,
                    constraints,
                    *old(workspace),
                    route.arcs@[i].wires@[k],
                    route.arcs@[i].pips@[k],
                    route.arcs@[i].wires@[k + 1],
                ) by {
                    assert(hops_roomy(*graph, constraints, room, arcs, route.arcs@));
                }
            }
            Ok(Some(route))
        },
        Err(error) => {
            proof {
                reveal(grows_in_room);
                reveal(fails_in_room);
                let arcs = NetRouter::fixed_arcs(fixed);
                let router = choose|router: NetRouter<'_>|
                    {
                        &&& is_hard_router(
                            router,
                            *graph,
                            placement,
                            constraints,
                            costs,
                            room,
                            true,
                        )
                        &&& router.net_failure(net, error)
                        &&& #[trigger] router.strands(net, arcs, room.search, error, blockers.met())
                    };
                assert(estimates_with(room.search, delay_per_tile_ps));
                assert(is_hard_router(
                    router,
                    *graph,
                    placement,
                    constraints,
                    costs,
                    *old(workspace),
                    true,
                ));
                assert(router.strands(net, arcs, room.search, error, blockers.met()));
            }
            match error {
                PnrError::Unroutable { .. } => Ok(None),
                other => Err(other),
            }
        },
    };
    workspace.search.estimate_base_delay_ps = base;
    workspace.search.estimate_delay_per_tile_ps = per_tile;
    result
}

/// A net with an unplaced cell is not bound.
proof fn lemma_missing_is_unbound(router: NetRouter<'_>, net: NetId, error: PnrError)
    requires
        error is MissingPlacement,
        router.net_failure(net, error),
        router.graph.wf(),
        net.0 < router.graph.design.nets@.len(),
    ensures
        !net_bound(router.graph, router.placement, net),
{
    let record = router.graph.design.nets@[net.0 as int];
    let cell = error->MissingPlacement_cell;
    if router.graph.design.pins@[record.driver.0 as int].cell == cell {
        assert(pin_wire(router.graph, router.placement, record.driver) is None);
    } else {
        let k = choose|k: int|
            0 <= k < record.sinks@.len() && router.graph.design.pins@[(
            #[trigger] record.sinks@[k]).0 as int].cell == cell;
        assert(pin_wire(router.graph, router.placement, record.sinks@[k]) is None);
    }
}

} // verus!
