//! Legal change of one routed connection.

use std::sync::Arc;

use vstd::prelude::*;
use vstd::string::*;

use crate::cost_validation::{costs_valid, lemma_valid_costs_fit, validate_routing_costs};
use crate::device::{Device, UnifiedGraph};
use crate::eco_stage::{
    check_incumbent, hops_roomy, incumbent_defect, incumbent_fits, is_legal, is_room, load_incumbent, net_bound,
    rebuild, regrown, roomy_hop, searched, validate_legal_eco_capacity,
};
use crate::error::PnrError;
use crate::model::{CellPinId, Design, NetId, PipId, WireId};
use crate::negotiate::{lemma_within_is_countable, within_capacity};
use crate::net_growth::NetRouter;
use crate::net_routing::{arc_fits, arcs_fit, driver_wire, holds_arc, takes_hop};
use crate::net_state::{
    arcs_kept, lemma_arcs_slot_fits, lemma_kept_resources, lemma_same_arc_fits, topology_locked,
};
use crate::occupancy::{indices, lemma_users_update, pip_sets, users, wire_sets};
use crate::ordered::{OrderedKey, OrderedSet};
use crate::placement::{PinWireCache, Placement};
use crate::retain::{leads_to, retained_route, retains};
use crate::route::{NetRoute, RouteArc};
use crate::routing::{count_pips, lemma_pips_known, used_pips, PnrResult};
use crate::routing_constraints::RoutingConstraints;
use crate::routing_costs::{share, RoutingCosts};
use crate::text::{decimal_text, numbered, twice_numbered};
use crate::validation::{has_sink, route_fits};
use crate::victims::sink_locked;
use crate::workspace::{filled, lemma_sets_update, slot_fits, slots_fit, RoutingWorkspace};

verus! {

/// One routed driver-to-sink connection considered by a legal timing ECO.
#[derive(Clone, Copy, Debug, PartialEq, Eq, PartialOrd, Ord, Structural)]
pub struct LegalRouteEcoConnection {
    /// Logical net containing the connection.
    pub net: NetId,
    /// Logical sink pin whose route arc may change.
    pub sink: CellPinId,
}

impl LegalRouteEcoConnection {
    /// Creates one connection-local ECO request.
    pub fn new(net: NetId, sink: CellPinId) -> (result: Self)
        ensures
            result == (LegalRouteEcoConnection { net, sink }),
    {
        LegalRouteEcoConnection { net, sink }
    }
}

/// Search controls for one legal timing ECO candidate.
#[derive(Clone, Copy, Debug, PartialEq, Eq, Structural)]
pub struct LegalRouteEcoOptions {
    /// Geometry-to-delay coefficient used by the hard-occupancy search.
    pub estimate_delay_per_tile_ps: u64,
}

impl LegalRouteEcoOptions {
    /// Creates connection-local ECO search controls.
    pub fn new(estimate_delay_per_tile_ps: u64) -> (result: Self)
        ensures
            result == (LegalRouteEcoOptions { estimate_delay_per_tile_ps }),
    {
        LegalRouteEcoOptions { estimate_delay_per_tile_ps }
    }
}

/// A copy of the routes that shares every tree.
pub(crate) fn share_routes(routes: &Vec<Arc<NetRoute>>) -> (result: Vec<Arc<NetRoute>>)
    ensures
        result@ == routes@,
{
    let mut result: Vec<Arc<NetRoute>> = Vec::new();
    let mut index: usize = 0;
    while index < routes.len()
        invariant
            index <= routes@.len(),
            result@ == routes@.take(index as int),
        decreases routes@.len() - index,
    {
        result.push(share(&routes[index]));
        assert(routes@.take(index + 1) =~= routes@.take(index as int).push(routes@[index as int]));
        index = index + 1;
    }
    assert(routes@.take(index as int) =~= routes@);
    result
}

/// The request names a sink of the design, and there is one route of each net.
pub open spec fn is_asked(
    design: &Design,
    incumbent: &PnrResult,
    connection: LegalRouteEcoConnection,
    options: LegalRouteEcoOptions,
) -> bool {
    &&& options.estimate_delay_per_tile_ps > 0
    &&& incumbent.routes@.len() == design.nets@.len()
    &&& connection.net.0 < design.nets@.len()
    &&& design.nets@[connection.net.0 as int].sinks@.contains(connection.sink)
}

/// The incumbent is a legal routing that reaches the sink.
pub open spec fn is_ready(
    graph: UnifiedGraph<'_>,
    incumbent: &PnrResult,
    constraints: &RoutingConstraints,
    costs: &RoutingCosts,
    connection: LegalRouteEcoConnection,
) -> bool {
    &&& incumbent_fits(graph, &incumbent.placement, constraints, incumbent.routes@)
    &&& costs_valid(graph, costs)
    &&& within_capacity(graph.device, filled(incumbent.routes@))
    &&& incumbent.routes@[connection.net.0 as int].reaches(connection.sink)
    &&& net_bound(graph, &incumbent.placement, connection.net)
}

/// The arc is not the selected one.
pub open spec fn is_sibling(arc: RouteArc, sink: CellPinId) -> bool {
    arc.sink != Some(sink)
}

/// Every arc of the one list but the selected one stands in the other.
pub open spec fn siblings_kept(
    earlier: Seq<RouteArc>,
    sink: CellPinId,
    arcs: Seq<RouteArc>,
) -> bool {
    forall|i: int|
        0 <= i < earlier.len() && is_sibling(#[trigger] earlier[i], sink) ==> holds_arc(
            arcs,
            earlier[i],
        )
}

/// No arc takes a forbidden PIP.
pub open spec fn avoids_blocked(constraints: &RoutingConstraints, arcs: Seq<RouteArc>) -> bool {
    forall|i: int, k: int|
        #![trigger arcs[i].pips@[k]]
        0 <= i < arcs.len() && 0 <= k < arcs[i].pips@.len() ==> !constraints.blocked_pips@.contains(
            arcs[i].pips@[k],
        )
}

/// The route without the arc to the sink.
pub open spec fn reopened(
    graph: UnifiedGraph<'_>,
    earlier: NetRoute,
    sink: CellPinId,
    kept: NetRoute,
) -> bool {
    retains(
        earlier,
        Set::new(
            |s: CellPinId|
                graph.design.nets@[earlier.net.0 as int].sinks@.contains(s) && s != sink,
        ),
        kept,
    )
}

/// What searching for a new arc to the sink gives, where every other arc of
/// the routing stays.
pub open spec fn connection_searched(
    graph: UnifiedGraph<'_>,
    incumbent: &PnrResult,
    constraints: &RoutingConstraints,
    costs: &RoutingCosts,
    connection: LegalRouteEcoConnection,
    options: LegalRouteEcoOptions,
    outcome: Option<NetRoute>,
) -> bool {
    let net = connection.net.0 as int;
    exists|kept: Arc<NetRoute>|
        #[trigger] reopened(graph, *incumbent.routes@[net], connection.sink, *kept) && searched(
            graph,
            &incumbent.placement,
            constraints,
            costs,
            options.estimate_delay_per_tile_ps,
            filled(incumbent.routes@).update(net, Some(kept)),
            connection.net,
            kept.arcs@,
            outcome,
        )
}

/// The search finds no other route: none at all, or the one that stands.
pub open spec fn finds_nothing_new(
    graph: UnifiedGraph<'_>,
    incumbent: &PnrResult,
    constraints: &RoutingConstraints,
    costs: &RoutingCosts,
    connection: LegalRouteEcoConnection,
    options: LegalRouteEcoOptions,
) -> bool {
    ||| connection_searched(graph, incumbent, constraints, costs, connection, options, None)
    ||| exists|route: NetRoute|
        route.same_arcs(&*incumbent.routes@[connection.net.0 as int])
            && #[trigger] connection_searched(
            graph,
            incumbent,
            constraints,
            costs,
            connection,
            options,
            Some(route),
        )
}

/// The route keeps every arc of the other but the selected one, reaches every
/// sink, and takes no forbidden hop beside.
pub open spec fn reroutes(
    graph: UnifiedGraph<'_>,
    placement: &Placement,
    constraints: &RoutingConstraints,
    earlier: NetRoute,
    sink: CellPinId,
    route: NetRoute,
) -> bool {
    let net = earlier.net;
    let record = graph.design.nets@[net.0 as int];
    &&& route.net == net
    &&& route.is_fresh()
    &&& driver_wire(graph, placement, net) is Some
    &&& arcs_fit(graph, placement, net, driver_wire(graph, placement, net)->0, route.arcs@)
    &&& forall|k: int|
        0 <= k < record.sinks@.len() ==> route.reaches(#[trigger] record.sinks@[k])
    &&& siblings_kept(earlier.arcs@, sink, route.arcs@)
    &&& topology_locked(earlier.arcs@, route.arcs@)
    &&& avoids_blocked(constraints, route.arcs@)
    &&& crate::net_routing::consistent(earlier.arcs@) ==> crate::net_routing::consistent(
        route.arcs@,
    )
}

/// A legal routing that differs from the incumbent in the selected connection alone.
pub open spec fn is_eco_candidate(
    graph: UnifiedGraph<'_>,
    incumbent: &PnrResult,
    constraints: &RoutingConstraints,
    connection: LegalRouteEcoConnection,
    candidate: PnrResult,
) -> bool {
    let net = connection.net.0 as int;
    &&& candidate.placement.same(&incumbent.placement)
    &&& candidate.routes@ == incumbent.routes@.update(net, candidate.routes@[net])
    &&& reroutes(
        graph,
        &incumbent.placement,
        constraints,
        *incumbent.routes@[net],
        connection.sink,
        *candidate.routes@[net],
    )
    &&& !candidate.routes@[net].same_arcs(&*incumbent.routes@[net])
    &&& within_capacity(graph.device, filled(candidate.routes@))
    &&& candidate.total_pips == used_pips(candidate.routes@).len()
}

/// The sinks of a net but one.
pub(crate) fn other_sinks(sinks: &Vec<CellPinId>, sink: CellPinId) -> (result: OrderedSet<CellPinId>)
    ensures
        result.wf(),
        forall|s: CellPinId| #[trigger] result@.contains(s) <==> sinks@.contains(s) && s != sink,
{
    let mut result: OrderedSet<CellPinId> = OrderedSet::from_slice(sinks.as_slice());
    result.remove(sink);
    result
}

/// What is kept of a fitting route fits.
pub(crate) proof fn lemma_kept_fits(
    graph: UnifiedGraph<'_>,
    placement: &Placement,
    constraints: &RoutingConstraints,
    earlier: &NetRoute,
    others: Set<CellPinId>,
    sink: CellPinId,
    kept: &NetRoute,
)
    requires
        route_fits(graph, placement, constraints, earlier.net, *earlier),
        retains(*earlier, others, *kept),
        forall|s: CellPinId| #[trigger]
            others.contains(s) <==> graph.design.nets@[earlier.net.0 as int].sinks@.contains(s) && s
                != sink,
    ensures
        arcs_fit(
            graph,
            placement,
            earlier.net,
            driver_wire(graph, placement, earlier.net)->0,
            kept.arcs@,
        ),
        arcs_kept(kept.arcs@, earlier.arcs@),
        siblings_kept(earlier.arcs@, sink, kept.arcs@),
{
    let net = earlier.net;
    let driver = driver_wire(graph, placement, net)->0;
    assert forall|i: int| 0 <= i < kept.arcs@.len() implies arc_fits(
        graph,
        placement,
        net,
        driver,
        #[trigger] kept.arcs@[i],
    ) by {
        assert(holds_arc(earlier.arcs@, kept.arcs@[i]));
        let k = choose|k: int|
            0 <= k < earlier.arcs@.len() && (#[trigger] earlier.arcs@[k]).same(&kept.arcs@[i]);
        assert(arc_fits(graph, placement, net, driver, earlier.arcs@[k]));
        lemma_same_arc_fits(graph, placement, net, driver, earlier.arcs@[k], kept.arcs@[i]);
    }
    assert forall|f: int| 0 <= f < kept.arcs@.len() implies holds_arc(
        earlier.arcs@,
        #[trigger] kept.arcs@[f],
    ) by {
        assert(leads_to(kept.arcs@[f], others));
    }
    assert forall|i: int|
        0 <= i < earlier.arcs@.len() && is_sibling(#[trigger] earlier.arcs@[i], sink) implies holds_arc(
        kept.arcs@,
        earlier.arcs@[i],
    ) by {
        assert(arc_fits(graph, placement, net, driver, earlier.arcs@[i]));
        assert(leads_to(earlier.arcs@[i], others));
    }
}

/// A wire of the regrown route is one of the kept part, the driver, or has room.
pub(crate) proof fn lemma_regrown_wire(
    graph: UnifiedGraph<'_>,
    placement: &Placement,
    constraints: &RoutingConstraints,
    workspace: RoutingWorkspace,
    net: NetId,
    kept: NetRoute,
    route: NetRoute,
    wire: WireId,
)
    requires
        regrown(graph, placement, constraints, workspace, net, kept.arcs@, route),
        kept.is_fresh(),
        arcs_fit(graph, placement, net, driver_wire(graph, placement, net)->0, kept.arcs@),
        route.has_wire(wire),
        !kept.has_wire(wire),
        wire != driver_wire(graph, placement, net)->0,
    ensures
        workspace.wires.occupancy@[wire.0 as int] < workspace.wires.capacities@[wire.0 as int],
{
    let driver = driver_wire(graph, placement, net)->0;
    route.lemma_resources();
    kept.lemma_resources();
    let i = choose|i: int|
        0 <= i < route.arcs@.len() && (#[trigger] route.arcs@[i]).wires@.contains(wire);
    let at = route.arcs@[i].wires@.index_of(wire);
    assert(arc_fits(graph, placement, net, driver, route.arcs@[i]));
    let k = at - 1;
    let from = route.arcs@[i].wires@[k];
    let pip = route.arcs@[i].pips@[k];
    if takes_hop(kept.arcs@, from, pip, wire) {
        let (a, j) = choose|a: int, j: int|
            #![trigger kept.arcs@[a].pips@[j]]
            0 <= a < kept.arcs@.len() && 0 <= j < kept.arcs@[a].pips@.len()
                && kept.arcs@[a].pips@[j] == pip && kept.arcs@[a].wires@[j] == from
                && kept.arcs@[a].wires@[j + 1] == wire;
        assert(arc_fits(graph, placement, net, driver, kept.arcs@[a]));
        assert(kept.arcs@[a].wires@.contains(kept.arcs@[a].wires@[j + 1]));
    }
}

/// A PIP of the regrown route is one of the kept part or has room.
pub(crate) proof fn lemma_regrown_pip(
    graph: UnifiedGraph<'_>,
    placement: &Placement,
    constraints: &RoutingConstraints,
    workspace: RoutingWorkspace,
    net: NetId,
    kept: NetRoute,
    route: NetRoute,
    pip: PipId,
)
    requires
        regrown(graph, placement, constraints, workspace, net, kept.arcs@, route),
        kept.is_fresh(),
        route.has_pip(pip),
        !kept.has_pip(pip),
    ensures
        workspace.pips.occupancy@[pip.0 as int] < workspace.pips.capacities@[pip.0 as int],
{
    route.lemma_resources();
    kept.lemma_resources();
    let i = choose|i: int|
        0 <= i < route.arcs@.len() && (#[trigger] route.arcs@[i]).pips@.contains(pip);
    let k = route.arcs@[i].pips@.index_of(pip);
    let from = route.arcs@[i].wires@[k];
    let to = route.arcs@[i].wires@[k + 1];
    assert(route.arcs@[i].pips@[k] == pip);
    if takes_hop(kept.arcs@, from, pip, to) {
        let (a, j) = choose|a: int, j: int|
            #![trigger kept.arcs@[a].pips@[j]]
            0 <= a < kept.arcs@.len() && 0 <= j < kept.arcs@[a].pips@.len()
                && kept.arcs@[a].pips@[j] == pip && kept.arcs@[a].wires@[j] == from
                && kept.arcs@[a].wires@[j + 1] == to;
        assert(kept.arcs@[a].pips@.contains(kept.arcs@[a].pips@[j]));
    }
}

/// Exchanging a connection for one through free resources keeps every capacity.
pub(crate) proof fn lemma_stays_within_capacity(
    graph: UnifiedGraph<'_>,
    placement: &Placement,
    constraints: &RoutingConstraints,
    workspace: RoutingWorkspace,
    slots: Seq<Option<Arc<NetRoute>>>,
    net: NetId,
    earlier: Arc<NetRoute>,
    kept: Arc<NetRoute>,
    route: Arc<NetRoute>,
)
    requires
        net.0 < slots.len(),
        slots[net.0 as int] == Some(earlier),
        workspace.fits(graph.device),
        workspace.wires.occupancy@.len() == graph.device.wires@.len(),
        workspace.pips.occupancy@.len() == graph.device.pips@.len(),
        within_capacity(graph.device, slots),
        workspace.wires.counts(wire_sets(slots.update(net.0 as int, Some(kept)))),
        workspace.pips.counts(pip_sets(slots.update(net.0 as int, Some(kept)))),
        regrown(graph, placement, constraints, workspace, net, kept.arcs@, *route),
        kept.is_fresh(),
        arcs_fit(graph, placement, net, driver_wire(graph, placement, net)->0, kept.arcs@),
        earlier.has_wire(driver_wire(graph, placement, net)->0),
        indices(kept.wire_refs).subset_of(indices(earlier.wire_refs)),
        indices(kept.pip_refs).subset_of(indices(earlier.pip_refs)),
    ensures
        within_capacity(graph.device, slots.update(net.0 as int, Some(route))),
{
    let index = net.0 as int;
    let driver = driver_wire(graph, placement, net)->0;
    let after = slots.update(index, Some(route));
    lemma_sets_update(slots, index, Some(kept));
    lemma_sets_update(slots, index, Some(route));
    assert forall|w: int| 0 <= w < graph.device.wires@.len() implies #[trigger] users(
        wire_sets(after),
        w,
    ) <= graph.device.wires@[w].capacity by {
        let sets = wire_sets(slots);
        lemma_users_update(sets, index, indices(kept.wire_refs), w);
        lemma_users_update(sets, index, indices(route.wire_refs), w);
        assert(users(sets, w) <= graph.device.wires@[w].capacity);
        assert(workspace.wires.occupancy@[w] == users(
            wire_sets(slots.update(index, Some(kept))),
            w,
        ));
        assert(workspace.wires.capacities@[w] == graph.device.wires@[w].capacity);
        assert(sets[index] == indices(earlier.wire_refs));
        if indices(route.wire_refs).contains(w) && !indices(kept.wire_refs).contains(w) {
            let wire = choose|k: WireId| #[trigger]
                route.wire_refs@.contains_key(k) && k.rank() == w;
            assert(route.has_wire(wire));
            assert(!kept.wire_refs@.contains_key(wire));
            assert(!kept.has_wire(wire));
            assert(wire.0 == w);
            if wire == driver {
                assert(earlier.wire_refs@.contains_key(wire));
                assert(sets[index].contains(w));
            } else {
                lemma_regrown_wire(
                    graph,
                    placement,
                    constraints,
                    workspace,
                    net,
                    *kept,
                    *route,
                    wire,
                );
            }
        }
    }
    assert forall|p: int| 0 <= p < graph.device.pips@.len() implies #[trigger] users(
        pip_sets(after),
        p,
    ) <= graph.device.pips@[p].capacity by {
        let sets = pip_sets(slots);
        lemma_users_update(sets, index, indices(kept.pip_refs), p);
        lemma_users_update(sets, index, indices(route.pip_refs), p);
        assert(users(sets, p) <= graph.device.pips@[p].capacity);
        assert(workspace.pips.occupancy@[p] == users(
            pip_sets(slots.update(index, Some(kept))),
            p,
        ));
        assert(workspace.pips.capacities@[p] == graph.device.pips@[p].capacity);
        assert(sets[index] == indices(earlier.pip_refs));
        if indices(route.pip_refs).contains(p) && !indices(kept.pip_refs).contains(p) {
            let pip = choose|k: PipId| #[trigger]
                route.pip_refs@.contains_key(k) && k.rank() == p;
            assert(route.has_pip(pip));
            assert(!kept.pip_refs@.contains_key(pip));
            assert(!kept.has_pip(pip));
            assert(pip.0 == p);
            lemma_regrown_pip(
                graph,
                placement,
                constraints,
                workspace,
                net,
                *kept,
                *route,
                pip,
            );
        }
    }
}

/// Reports that the request itself is malformed.
fn refuse(net: NetId, reason: String) -> (result: Result<Option<PnrResult>, PnrError>)
    ensures
        result == Err::<Option<PnrResult>, _>(PnrError::InvalidRoutingConstraint { net, reason }),
{
    Err(PnrError::InvalidRoutingConstraint { net, reason })
}

/// The workspace is sized for the device and holds neither history nor prices.
pub open spec fn is_cleared(device: &Device, workspace: RoutingWorkspace) -> bool {
    &&& workspace.fits(device)
    &&& workspace.wires.history_at_most(0)
    &&& workspace.pips.history_at_most(0)
    &&& workspace.unpriced()
}

/// Routes the selected connection again among the immovable others.
fn replace_connection(
    graph: &UnifiedGraph<'_>,
    incumbent: &PnrResult,
    pin_wires: &PinWireCache,
    constraints: &RoutingConstraints,
    costs: &RoutingCosts,
    connection: LegalRouteEcoConnection,
    options: LegalRouteEcoOptions,
    workspace: &mut RoutingWorkspace,
) -> (result: Result<Option<NetRoute>, PnrError>)
    requires
        graph.wf(),
        incumbent.placement.fits(graph.device),
        pin_wires.holds(*graph, &incumbent.placement),
        constraints.wf(),
        crate::net_growth::costs_fit(graph.device, costs),
        connection.net.0 < graph.design.nets@.len(),
        graph.design.nets@[connection.net.0 as int].sinks@.contains(connection.sink),
        incumbent_fits(*graph, &incumbent.placement, constraints, incumbent.routes@),
        within_capacity(graph.device, filled(incumbent.routes@)),
        incumbent.routes@[connection.net.0 as int].reaches(connection.sink),
        old(workspace).wf(),
        old(workspace).fits(graph.device),
        !old(workspace).resident_valid,
        slots_fit(
            filled(incumbent.routes@),
            old(workspace).wire_count(),
            old(workspace).pip_count(),
        ),
        old(workspace).wires.counts(wire_sets(filled(incumbent.routes@))),
        old(workspace).pips.counts(pip_sets(filled(incumbent.routes@))),
        is_cleared(graph.device, *old(workspace)),
    ensures
        final(workspace).wf(),
        final(workspace).fits(graph.device),
        !final(workspace).resident_valid,
        is_cleared(graph.device, *final(workspace)),
        final(workspace).search.same_estimates(&old(workspace).search),
        match result {
            Ok(Some(route)) => {
                &&& connection_searched(
                    *graph,
                    incumbent,
                    constraints,
                    costs,
                    connection,
                    options,
                    Some(route),
                )
                &&& reroutes(
                    *graph,
                    &incumbent.placement,
                    constraints,
                    *incumbent.routes@[connection.net.0 as int],
                    connection.sink,
                    route,
                )
                &&& forall|shared: Arc<NetRoute>|
                    *shared == route ==> #[trigger] within_capacity(
                        graph.device,
                        filled(incumbent.routes@.update(connection.net.0 as int, shared)),
                    )
            },
            Ok(None) => connection_searched(
                *graph,
                incumbent,
                constraints,
                costs,
                connection,
                options,
                None,
            ),
            Err(error) => {
                &&& !net_bound(*graph, &incumbent.placement, connection.net)
                &&& error is MissingPlacement || error is Model
            },
        },
{
    let net = connection.net;
    let placement = &incumbent.placement;
    let earlier = &incumbent.routes[net.0];
    let ghost routes = incumbent.routes@;
    let ghost slots = filled(routes);
    let others = other_sinks(&graph.design().nets[net.0].sinks, connection.sink);
    let kept = Arc::new(retained_route(earlier, &others));
    proof {
        assert(earlier.net.0 == net.0);
        assert(route_fits(*graph, placement, constraints, earlier.net, **earlier));
        lemma_kept_fits(
            *graph,
            placement,
            constraints,
            &**earlier,
            others@,
            connection.sink,
            &*kept,
        );
        lemma_kept_resources(&*kept, &**earlier);
        lemma_arcs_slot_fits(*graph, placement, net, kept);
        assert(slot_fits(slots[net.0 as int], workspace.wire_count(), workspace.pip_count()));
    }
    let mut overused_wires = workspace.wires.find_overused();
    let mut overused_pips = workspace.pips.find_overused();
    let earlier_slot = Some(share(earlier));
    let later_slot = Some(share(&kept));
    assert(earlier_slot == slots[net.0 as int]);
    let _ = workspace.swap_slot(
        &earlier_slot,
        &later_slot,
        &mut overused_wires,
        &mut overused_pips,
        Ghost(slots),
        Ghost(net.0 as int),
    );
    let ghost room = *workspace;
    let outcome = rebuild(
        graph,
        placement,
        pin_wires,
        constraints,
        costs,
        options.estimate_delay_per_tile_ps,
        net,
        Some(&*kept),
        workspace,
    );
    proof {
        let others_spec = Set::new(
            |s: CellPinId|
                graph.design.nets@[earlier.net.0 as int].sinks@.contains(s) && s
                    != connection.sink,
        );
        assert(others@ =~= others_spec);
        assert(reopened(*graph, **earlier, connection.sink, *kept));
        assert(is_room(graph.device, slots.update(net.0 as int, Some(kept)), room));
        assert(NetRouter::fixed_arcs(Some(&*kept)) == kept.arcs@);
        if let Ok(Some(route)) = &outcome {
            assert(searched(
                *graph,
                placement,
                constraints,
                costs,
                options.estimate_delay_per_tile_ps,
                slots.update(net.0 as int, Some(kept)),
                net,
                kept.arcs@,
                Some(*route),
            ));
        }
        if let Ok(None) = &outcome {
            assert(searched(
                *graph,
                placement,
                constraints,
                costs,
                options.estimate_delay_per_tile_ps,
                slots.update(net.0 as int, Some(kept)),
                net,
                kept.arcs@,
                None,
            ));
        }
        if let Ok(Some(route)) = &outcome {
            let driver = driver_wire(*graph, placement, net)->0;
            assert(NetRouter::fixed_arcs(Some(&*kept)) == kept.arcs@);
            assert(earlier.has_wire(driver)) by {
                earlier.lemma_resources();
                let i = choose|i: int|
                    0 <= i < earlier.arcs@.len() && (#[trigger] earlier.arcs@[i]).sink == Some(
                        connection.sink,
                    );
                assert(arc_fits(*graph, placement, net, driver, earlier.arcs@[i]));
                assert(earlier.arcs@[i].wires@.contains(earlier.arcs@[i].wires@[0]));
            }
            assert forall|shared: Arc<NetRoute>| *shared == *route implies #[trigger] within_capacity(
                graph.device,
                filled(routes.update(net.0 as int, shared)),
            ) by {
                lemma_stays_within_capacity(
                    *graph,
                    placement,
                    constraints,
                    room,
                    slots,
                    net,
                    *earlier,
                    kept,
                    shared,
                );
                assert(filled(routes.update(net.0 as int, shared)) =~= slots.update(
                    net.0 as int,
                    Some(shared),
                ));
            }
            lemma_reroutes(
                *graph,
                placement,
                constraints,
                room,
                &**earlier,
                others@,
                connection.sink,
                &*kept,
                route,
            );
        }
    }
    outcome
}

/// A net regrown from what was kept reroutes the selected connection.
pub(crate) proof fn lemma_reroutes(
    graph: UnifiedGraph<'_>,
    placement: &Placement,
    constraints: &RoutingConstraints,
    workspace: RoutingWorkspace,
    earlier: &NetRoute,
    others: Set<CellPinId>,
    sink: CellPinId,
    kept: &NetRoute,
    route: &NetRoute,
)
    requires
        route_fits(graph, placement, constraints, earlier.net, *earlier),
        retains(*earlier, others, *kept),
        forall|s: CellPinId| #[trigger]
            others.contains(s) <==> graph.design.nets@[earlier.net.0 as int].sinks@.contains(s) && s
                != sink,
        avoids_blocked(constraints, earlier.arcs@),
        regrown(graph, placement, constraints, workspace, earlier.net, kept.arcs@, *route),
    ensures
        reroutes(graph, placement, constraints, *earlier, sink, *route),
{
    lemma_kept_fits(graph, placement, constraints, earlier, others, sink, kept);
    lemma_siblings_through(earlier.arcs@, kept.arcs@, route.arcs@, sink);
    lemma_topology_through(earlier.arcs@, kept.arcs@, route.arcs@);
    lemma_still_unblocked(graph, constraints, workspace, earlier.arcs@, kept.arcs@, route.arcs@);
}

/// Siblings kept by the part stay kept by what grows from the part.
proof fn lemma_siblings_through(
    earlier: Seq<RouteArc>,
    kept: Seq<RouteArc>,
    arcs: Seq<RouteArc>,
    sink: CellPinId,
)
    requires
        siblings_kept(earlier, sink, kept),
        arcs_kept(kept, arcs),
    ensures
        siblings_kept(earlier, sink, arcs),
{
    assert forall|i: int|
        0 <= i < earlier.len() && is_sibling(#[trigger] earlier[i], sink) implies holds_arc(
        arcs,
        earlier[i],
    ) by {
        let k = choose|k: int| 0 <= k < kept.len() && (#[trigger] kept[k]).same(&earlier[i]);
        assert(holds_arc(arcs, kept[k]));
        let j = choose|j: int| 0 <= j < arcs.len() && (#[trigger] arcs[j]).same(&kept[k]);
        assert(arcs[j].same(&earlier[i]));
    }
}

/// Shared topology comes from the whole where it comes from a part.
proof fn lemma_topology_through(
    earlier: Seq<RouteArc>,
    kept: Seq<RouteArc>,
    arcs: Seq<RouteArc>,
)
    requires
        topology_locked(kept, arcs),
        arcs_kept(kept, earlier),
    ensures
        topology_locked(earlier, arcs),
{
    assert forall|i: int| 0 <= i < arcs.len() && (#[trigger] arcs[i]).sink is None implies holds_arc(
        earlier,
        arcs[i],
    ) by {
        assert(holds_arc(kept, arcs[i]));
        let k = choose|k: int| 0 <= k < kept.len() && (#[trigger] kept[k]).same(&arcs[i]);
        assert(holds_arc(earlier, kept[k]));
        let j = choose|j: int| 0 <= j < earlier.len() && (#[trigger] earlier[j]).same(&kept[k]);
        assert(earlier[j].same(&arcs[i]));
    }
}

/// Hops that were taken before or have room are not forbidden.
proof fn lemma_still_unblocked(
    graph: UnifiedGraph<'_>,
    constraints: &RoutingConstraints,
    workspace: RoutingWorkspace,
    earlier: Seq<RouteArc>,
    kept: Seq<RouteArc>,
    arcs: Seq<RouteArc>,
)
    requires
        avoids_blocked(constraints, earlier),
        arcs_kept(kept, earlier),
        hops_roomy(graph, constraints, workspace, kept, arcs),
    ensures
        avoids_blocked(constraints, arcs),
{
    assert forall|i: int, k: int|
        #![trigger arcs[i].pips@[k]]
        0 <= i < arcs.len() && 0 <= k < arcs[i].pips@.len() implies !constraints.blocked_pips@.contains(
    arcs[i].pips@[k]) by {
        let from = arcs[i].wires@[k];
        let pip = arcs[i].pips@[k];
        let to = arcs[i].wires@[k + 1];
        if takes_hop(kept, from, pip, to) {
            let (a, j) = choose|a: int, j: int|
                #![trigger kept[a].pips@[j]]
                0 <= a < kept.len() && 0 <= j < kept[a].pips@.len() && kept[a].pips@[j] == pip
                    && kept[a].wires@[j] == from && kept[a].wires@[j + 1] == to;
            assert(holds_arc(earlier, kept[a]));
            let b = choose|b: int| 0 <= b < earlier.len() && (#[trigger] earlier[b]).same(&kept[a]);
            assert(earlier[b].pips@[j] == pip);
        } else {
            assert(roomy_hop(graph.device, constraints, workspace, from, pip, to));
        }
    }
}

/// Why the incumbent could not be loaded: a route that does not fit, costs that
/// do not fit, or a resource above its capacity.
pub open spec fn staging_defect(
    graph: UnifiedGraph<'_>,
    incumbent: &PnrResult,
    constraints: &RoutingConstraints,
    costs: &RoutingCosts,
    net: NetId,
    error: PnrError,
) -> bool {
    if !incumbent_fits(graph, &incumbent.placement, constraints, incumbent.routes@) {
        incumbent_defect(graph, &incumbent.placement, constraints, incumbent.routes@, error)
    } else if !costs_valid(graph, costs) {
        error is InvalidRoutingCosts
    } else {
        error matches PnrError::InvalidRoutingConstraint { net: reported, reason } && reported
            == net
    }
}

/// Why the request was refused.
pub open spec fn connection_defect(
    design: &Design,
    incumbent: &PnrResult,
    connection: LegalRouteEcoConnection,
    options: LegalRouteEcoOptions,
    error: PnrError,
) -> bool {
    if options.estimate_delay_per_tile_ps == 0 {
        error matches PnrError::InvalidRoutingCosts { reason } && reason@
            == "legal route ECO estimate must be positive"@
    } else {
        error matches PnrError::InvalidRoutingConstraint { net, reason } && net == connection.net
            && reason@ == if incumbent.routes@.len() != design.nets@.len() {
            "incumbent contains "@ + decimal_text(incumbent.routes@.len())
                + " route trees for "@ + decimal_text(design.nets@.len()) + " logical nets"@
        } else if connection.net.0 >= design.nets@.len() {
            "legal route ECO net ID is outside the design"@
        } else {
            "legal route ECO sink "@ + decimal_text(connection.sink.0 as nat)
                + " is not on the selected net"@
        }
    }
}

/// Why an incumbent was refused that the request names a sink of.
pub open spec fn readiness_defect(
    graph: UnifiedGraph<'_>,
    incumbent: &PnrResult,
    constraints: &RoutingConstraints,
    costs: &RoutingCosts,
    connection: LegalRouteEcoConnection,
    error: PnrError,
) -> bool {
    if !(incumbent_fits(graph, &incumbent.placement, constraints, incumbent.routes@)
        && costs_valid(graph, costs) && within_capacity(graph.device, filled(incumbent.routes@))) {
        staging_defect(graph, incumbent, constraints, costs, connection.net, error)
    } else if !incumbent.routes@[connection.net.0 as int].reaches(connection.sink) {
        error matches PnrError::InvalidRoutingConstraint { net, reason } && net == connection.net
            && reason@ == "incumbent route omits selected sink "@ + decimal_text(
            connection.sink.0 as nat,
        ) + ""@
    } else {
        error is MissingPlacement || error is Model
    }
}

/// Validates the incumbent and loads it as the only occupancy.
fn stage_incumbent(
    graph: &UnifiedGraph<'_>,
    incumbent: &PnrResult,
    pin_wires: &PinWireCache,
    constraints: &RoutingConstraints,
    costs: &RoutingCosts,
    net: NetId,
    workspace: &mut RoutingWorkspace,
) -> (result: Result<(), PnrError>)
    requires
        graph.wf(),
        incumbent.placement.fits(graph.device),
        pin_wires.holds(*graph, &incumbent.placement),
        constraints.wf(),
        costs.wf(),
        incumbent.routes@.len() == graph.design.nets@.len(),
        forall|i: int|
            0 <= i < incumbent.routes@.len() ==> (#[trigger] incumbent.routes@[i]).wf(),
        old(workspace).wf(),
    ensures
        final(workspace).wf(),
        old(workspace).is_ready() ==> final(workspace).is_ready(),
        old(workspace).fits(graph.device) ==> final(workspace).search.same_estimates(
            &old(workspace).search,
        ),
        match result {
            Ok(()) => {
                &&& incumbent_fits(*graph, &incumbent.placement, constraints, incumbent.routes@)
                &&& costs_valid(*graph, costs)
                &&& within_capacity(graph.device, filled(incumbent.routes@))
                &&& final(workspace).fits(graph.device)
                &&& !final(workspace).resident_valid
                &&& final(workspace).unpriced()
                &&& slots_fit(
                    filled(incumbent.routes@),
                    final(workspace).wire_count(),
                    final(workspace).pip_count(),
                )
                &&& final(workspace).wires.counts(wire_sets(filled(incumbent.routes@)))
                &&& final(workspace).pips.counts(pip_sets(filled(incumbent.routes@)))
                &&& final(workspace).wires.history_at_most(0)
                &&& final(workspace).pips.history_at_most(0)
            },
            Err(error) => {
                &&& !(incumbent_fits(*graph, &incumbent.placement, constraints, incumbent.routes@)
                    && costs_valid(*graph, costs) && within_capacity(
                    graph.device,
                    filled(incumbent.routes@),
                ))
                &&& staging_defect(*graph, incumbent, constraints, costs, net, error)
            },
        },
{
    let complete = match check_incumbent(
        graph,
        &incumbent.placement,
        pin_wires,
        constraints,
        &incumbent.routes,
    ) {
        Err(error) => {
            return Err(error);
        },
        Ok(complete) => complete,
    };
    match validate_routing_costs(graph, Some(costs)) {
        Err(error) => {
            return Err(error);
        },
        Ok(()) => {},
    }
    if !load_incumbent(
        graph,
        &complete,
        Ghost(&incumbent.placement),
        Ghost(constraints),
        &incumbent.routes,
        workspace,
    ) {
        proof {
            lemma_within_is_countable(graph.device, filled(incumbent.routes@));
        }
        return Err(
            PnrError::InvalidRoutingConstraint {
                net,
                reason: String::from_str("incumbent overuses more resources than can be counted"),
            },
        );
    }
    let outcome = validate_legal_eco_capacity(
        workspace,
        net,
        "incumbent overuses wire ",
        "incumbent overuses PIP ",
    );
    proof {
        lemma_legal_is_within(*workspace, graph.device, filled(incumbent.routes@));
    }
    outcome
}

/// Counters that are legal count routes within capacity.
pub(crate) proof fn lemma_legal_is_within(
    workspace: RoutingWorkspace,
    device: &Device,
    routes: Seq<Option<Arc<NetRoute>>>,
)
    requires
        workspace.wf(),
        workspace.fits(device),
        workspace.wires.counts(wire_sets(routes)),
        workspace.pips.counts(pip_sets(routes)),
    ensures
        (is_legal(workspace.wires) && is_legal(workspace.pips)) == within_capacity(device, routes),
{
    if is_legal(workspace.wires) && is_legal(workspace.pips) {
        assert forall|w: int| 0 <= w < device.wires@.len() implies #[trigger] users(
            wire_sets(routes),
            w,
        ) <= device.wires@[w].capacity by {
            assert(workspace.wires.occupancy@[w] == users(wire_sets(routes), w));
            assert(workspace.wires.capacities@[w] == device.wires@[w].capacity);
        }
        assert forall|p: int| 0 <= p < device.pips@.len() implies #[trigger] users(
            pip_sets(routes),
            p,
        ) <= device.pips@[p].capacity by {
            assert(workspace.pips.occupancy@[p] == users(pip_sets(routes), p));
            assert(workspace.pips.capacities@[p] == device.pips@[p].capacity);
        }
    }
    if within_capacity(device, routes) {
        assert forall|w: int| 0 <= w < workspace.wires.occupancy@.len() implies
        #[trigger] workspace.wires.occupancy@[w] <= workspace.wires.capacities@[w] by {
            assert(users(wire_sets(routes), w) <= device.wires@[w].capacity);
            assert(workspace.wires.capacities@[w] == device.wires@[w].capacity);
        }
        assert forall|p: int| 0 <= p < workspace.pips.occupancy@.len() implies
        #[trigger] workspace.pips.occupancy@[p] <= workspace.pips.capacities@[p] by {
            assert(users(pip_sets(routes), p) <= device.pips@[p].capacity);
            assert(workspace.pips.capacities@[p] == device.pips@[p].capacity);
        }
    }
}

/// Builds one connection-local, conflict-free route candidate.
///
/// The incumbent result is never mutated. Every route except `connection` is
/// installed as hard occupancy; same-net sibling arcs remain the replacement
/// tree, and only resources exclusively owned by the selected arc are
/// released. The caller is responsible for running full timing analysis and
/// committing the returned [`PnrResult`] only when its whole-design objective
/// improves.
///
/// `workspace` retains device-sized allocations across disposable ECO trials.
/// Its negotiated-congestion history is reset for every candidate, so a
/// rejected search cannot bias a later connection.
///
/// # Errors
///
/// Returns an invalid-model, route, cost, placement, or restriction error.
pub fn legal_route_eco_candidate_with_workspace(
    design: &Design,
    device: &Device,
    incumbent: &PnrResult,
    routing_constraints: &RoutingConstraints,
    routing_costs: &RoutingCosts,
    connection: LegalRouteEcoConnection,
    options: LegalRouteEcoOptions,
    workspace: &mut RoutingWorkspace,
) -> (result: Result<Option<PnrResult>, PnrError>)
    requires
        UnifiedGraph::of(design, device).wf(),
        incumbent.placement.fits(device),
        forall|i: int|
            0 <= i < incumbent.routes@.len() ==> (#[trigger] incumbent.routes@[i]).wf(),
        routing_constraints.wf(),
        routing_costs.wf(),
        old(workspace).wf(),
    ensures
        final(workspace).wf(),
        old(workspace).is_ready() ==> final(workspace).is_ready(),
        old(workspace).fits(device) ==> final(workspace).search.same_estimates(
            &old(workspace).search,
        ),
        !is_asked(design, incumbent, connection, options) || sink_locked(
            routing_constraints,
            connection.net,
            Some(connection.sink),
        ) ==> *final(workspace) == *old(workspace),
        result is Ok && !sink_locked(
            routing_constraints,
            connection.net,
            Some(connection.sink),
        ) ==> is_cleared(device, *final(workspace)),
        match result {
            Ok(Some(candidate)) => {
                &&& is_asked(design, incumbent, connection, options)
                &&& !sink_locked(routing_constraints, connection.net, Some(connection.sink))
                &&& is_ready(
                    UnifiedGraph::of(design, device),
                    incumbent,
                    routing_constraints,
                    routing_costs,
                    connection,
                )
                &&& is_eco_candidate(
                    UnifiedGraph::of(design, device),
                    incumbent,
                    routing_constraints,
                    connection,
                    candidate,
                )
                &&& connection_searched(
                    UnifiedGraph::of(design, device),
                    incumbent,
                    routing_constraints,
                    routing_costs,
                    connection,
                    options,
                    Some(*candidate.routes@[connection.net.0 as int]),
                )
            },
            Ok(None) => {
                &&& is_asked(design, incumbent, connection, options)
                &&& sink_locked(routing_constraints, connection.net, Some(connection.sink))
                    || finds_nothing_new(
                    UnifiedGraph::of(design, device),
                    incumbent,
                    routing_constraints,
                    routing_costs,
                    connection,
                    options,
                )
                &&& sink_locked(routing_constraints, connection.net, Some(connection.sink)) || (
                incumbent_fits(
                    UnifiedGraph::of(design, device),
                    &incumbent.placement,
                    routing_constraints,
                    incumbent.routes@,
                ) && costs_valid(UnifiedGraph::of(design, device), routing_costs)
                    && within_capacity(device, filled(incumbent.routes@))
                    && incumbent.routes@[connection.net.0 as int].reaches(connection.sink))
            },
            Err(error) => if is_asked(design, incumbent, connection, options) {
                &&& !sink_locked(routing_constraints, connection.net, Some(connection.sink))
                &&& !is_ready(
                    UnifiedGraph::of(design, device),
                    incumbent,
                    routing_constraints,
                    routing_costs,
                    connection,
                )
                &&& readiness_defect(
                    UnifiedGraph::of(design, device),
                    incumbent,
                    routing_constraints,
                    routing_costs,
                    connection,
                    error,
                )
            } else {
                connection_defect(design, incumbent, connection, options, error)
            },
        },
{
    if options.estimate_delay_per_tile_ps == 0 {
        return Err(
            PnrError::InvalidRoutingCosts {
                reason: String::from_str("legal route ECO estimate must be positive"),
            },
        );
    }
    if incumbent.routes.len() != design.nets.len() {
        return refuse(
            connection.net,
            twice_numbered(
                "incumbent contains ",
                incumbent.routes.len() as u64,
                " route trees for ",
                design.nets.len() as u64,
                " logical nets",
            ),
        );
    }
    if connection.net.0 >= design.nets.len() {
        return refuse(
            connection.net,
            String::from_str("legal route ECO net ID is outside the design"),
        );
    }
    if !has_sink(&design.nets[connection.net.0].sinks, connection.sink) {
        return refuse(
            connection.net,
            numbered("legal route ECO sink ", connection.sink.0, " is not on the selected net"),
        );
    }
    if let Some(locked) = routing_constraints.routes.get(connection.net) {
        if locked.arc(connection.sink).is_some() {
            return Ok(None);
        }
    }
    assert(!sink_locked(routing_constraints, connection.net, Some(connection.sink))) by {
        if sink_locked(routing_constraints, connection.net, Some(connection.sink)) {
            let i = choose|i: int|
                0 <= i < routing_constraints.routes@[connection.net].arcs@.len() && (
                #[trigger] routing_constraints.routes@[connection.net].arcs@[i]).sink == Some(
                    connection.sink,
                );
            assert(routing_constraints.routes@[connection.net].reaches(connection.sink));
        }
    }
    let graph = UnifiedGraph::new(design, device);
    let pin_wires = PinWireCache::build(&graph, &incumbent.placement);
    match stage_incumbent(
        &graph,
        incumbent,
        &pin_wires,
        routing_constraints,
        routing_costs,
        connection.net,
        workspace,
    ) {
        Err(error) => {
            return Err(error);
        },
        Ok(()) => {},
    }
    proof {
        lemma_valid_costs_fit(graph, routing_costs);
    }
    let earlier = &incumbent.routes[connection.net.0];
    if earlier.arc(connection.sink).is_none() {
        return refuse(
            connection.net,
            numbered("incumbent route omits selected sink ", connection.sink.0, ""),
        );
    }
    let replacement = match replace_connection(
        &graph,
        incumbent,
        &pin_wires,
        routing_constraints,
        routing_costs,
        connection,
        options,
        workspace,
    ) {
        Err(error) => {
            return Err(error);
        },
        Ok(None) => {
            return Ok(None);
        },
        Ok(Some(route)) => route,
    };
    if replacement.equals(earlier) {
        return Ok(None);
    }
    let mut routes = share_routes(&incumbent.routes);
    routes.set(connection.net.0, Arc::new(replacement));
    proof {
        let index = connection.net.0 as int;
        assert(routes@ =~= incumbent.routes@.update(index, routes@[index]));
        assert forall|i: int| 0 <= i < routes@.len() implies slot_fits(
            #[trigger] filled(routes@)[i],
            device.wires@.len() as int,
            device.pips@.len() as int,
        ) by {
            if i == index {
                lemma_arcs_slot_fits(graph, &incumbent.placement, connection.net, routes@[i]);
            } else {
                assert(route_fits(
                    graph,
                    &incumbent.placement,
                    routing_constraints,
                    incumbent.routes@[i].net,
                    *incumbent.routes@[i],
                ));
                lemma_arcs_slot_fits(
                    graph,
                    &incumbent.placement,
                    incumbent.routes@[i].net,
                    routes@[i],
                );
            }
        }
        lemma_pips_known(routes@, device.wires@.len() as int, device.pips@.len() as int);
    }
    let total_pips: usize = count_pips(&routes, device.pips.len());
    proof {
        let index = connection.net.0 as int;
        assert(within_capacity(
            device,
            filled(incumbent.routes@.update(index, routes@[index])),
        ));
    }
    Ok(Some(PnrResult { placement: incumbent.placement.copied(), routes, total_pips }))
}

} // verus!
