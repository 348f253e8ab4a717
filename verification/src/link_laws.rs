//! Every stage hands on what it was given.

use std::sync::Arc;

use vstd::prelude::*;

use crate::course::{present_weight, slot_arcs, NegotiationPoint};
use crate::device::UnifiedGraph;
use crate::eco::{connection_searched, LegalRouteEcoConnection, LegalRouteEcoOptions};
use crate::eco_nets::Cohort;
use crate::eco_stage::searched;
use crate::error::PnrError;
use crate::finish::all_placed;
use crate::model::{CellPinId, NetId};
use crate::neighbors::PlacementWeights;
use crate::place::{is_refined_placement, refine_outcome};
use crate::placement::Placement;
use crate::placement_constraints::PlacementConstraints;
use crate::refine_laws::{refinement_keeps_or_lowers, whole_stretch};
use crate::route::NetRoute;
use crate::routing::PnrResult;
use crate::routing_constraints::RoutingConstraints;
use crate::routing_costs::RoutingCosts;
use crate::search::RouteSearch;
use crate::trial::Trial;
use crate::unit_list::are_units;
use crate::units::PlacementUnit;
use crate::workspace::{filled, RoutingWorkspace};

verus! {

/// A net has its turn at the prices of its own iteration, from the arcs that its slot
/// still holds, and may be recovered from another wire of the tree in the first one alone.
pub proof fn a_turn_goes_by_its_iteration(
    trial: Trial<'_>,
    base: RouteSearch,
    iteration: int,
    point: NegotiationPoint,
    routes: Seq<Option<Arc<NetRoute>>>,
    net: usize,
    outcome: Result<NetRoute, PnrError>,
) -> (room: RoutingWorkspace)
    requires
        trial.is_turn(base, iteration, point, routes, net, outcome),
    ensures
        trial.is_market(base, point, present_weight(iteration), routes, room),
        room.search.same_estimates(&base),
        trial.buys(
            room,
            iteration == 0,
            NetId(net),
            match routes[net as int] {
                Some(route) => route.arcs@,
                None => Seq::empty(),
            },
            outcome,
        ),
{
    choose|room: RoutingWorkspace|
        #[trigger] trial.is_market(base, point, present_weight(iteration), routes, room)
            && trial.buys(
            room,
            iteration == 0,
            NetId(net),
            slot_arcs(routes[net as int]),
            outcome,
        )
}

/// A connection is searched for by the caller's estimate and tables, among all other nets
/// and all other arcs of its own net.
pub proof fn a_connection_is_searched_among_the_others(
    graph: UnifiedGraph<'_>,
    incumbent: &PnrResult,
    constraints: &RoutingConstraints,
    costs: &RoutingCosts,
    connection: LegalRouteEcoConnection,
    options: LegalRouteEcoOptions,
    outcome: Option<NetRoute>,
) -> (kept: Arc<NetRoute>)
    requires
        connection_searched(graph, incumbent, constraints, costs, connection, options, outcome),
    ensures
        searched(
            graph,
            &incumbent.placement,
            constraints,
            costs,
            options.estimate_delay_per_tile_ps,
            filled(incumbent.routes@).update(connection.net.0 as int, Some(kept)),
            connection.net,
            kept.arcs@,
            outcome,
        ),
        forall|i: int|
            0 <= i < kept.arcs@.len() ==> (#[trigger] kept.arcs@[i]).sink != Some(connection.sink),
        forall|i: int|
            0 <= i < incumbent.routes@[connection.net.0 as int].arcs@.len() && ((
            #[trigger] incumbent.routes@[connection.net.0 as int].arcs@[i]).sink matches Some(sink)
                ==> sink != connection.sink
                && graph.design.nets@[incumbent.routes@[connection.net.0 as int].net.0 as int].sinks@.contains(
                sink,
            )) ==> crate::net_routing::holds_arc(
                kept.arcs@,
                incumbent.routes@[connection.net.0 as int].arcs@[i],
            ),
{
    let net = connection.net.0 as int;
    let kept = choose|kept: Arc<NetRoute>|
        #[trigger] crate::eco::reopened(
            graph,
            *incumbent.routes@[net],
            connection.sink,
            *kept,
        ) && searched(
            graph,
            &incumbent.placement,
            constraints,
            costs,
            options.estimate_delay_per_tile_ps,
            filled(incumbent.routes@).update(net, Some(kept)),
            connection.net,
            kept.arcs@,
            outcome,
        );
    let route = incumbent.routes@[net];
    let others = Set::new(
        |s: CellPinId|
            graph.design.nets@[route.net.0 as int].sinks@.contains(s) && s != connection.sink,
    );
    assert(crate::retain::retains(*route, others, *kept));
    assert forall|i: int| 0 <= i < kept.arcs@.len() implies (#[trigger] kept.arcs@[i]).sink != Some(
        connection.sink,
    ) by {
        assert(crate::retain::leads_to(kept.arcs@[i], others));
    }
    assert forall|i: int|
        0 <= i < route.arcs@.len() && ((#[trigger] route.arcs@[i]).sink matches Some(sink) ==> sink
            != connection.sink && graph.design.nets@[route.net.0 as int].sinks@.contains(
            sink,
        )) implies crate::net_routing::holds_arc(kept.arcs@, route.arcs@[i]) by {
        assert(crate::retain::leads_to(route.arcs@[i], others));
    }
    kept
}

/// A net of a cohort is searched for by the caller's estimate and tables, from its
/// immutable arcs alone.
pub proof fn a_cohort_net_is_searched_from_its_immutable_arcs(
    cohort: Cohort<'_>,
    slots: Seq<Option<Arc<NetRoute>>>,
    net: NetId,
    outcome: Option<NetRoute>,
)
    requires
        cohort.net_searched(slots, net, outcome),
    ensures
        searched(
            cohort.graph,
            &cohort.incumbent.placement,
            cohort.constraints,
            cohort.costs,
            cohort.delay_per_tile_ps,
            slots,
            net,
            if cohort.constraints.routes@.contains_key(net) {
                cohort.constraints.routes@[net].arcs@
            } else {
                Seq::empty()
            },
            outcome,
        ),
{
}

/// Refining a placement returns the one that was given, or one whose connections between
/// different units cost less together by the weights that the caller gives.
pub proof fn refining_keeps_or_lowers(
    graph: UnifiedGraph<'_>,
    constraints: &PlacementConstraints,
    known: &Vec<PlacementUnit>,
    weights: PlacementWeights<'_>,
    limit: Option<usize>,
    start: Placement,
    placement: Placement,
)
    requires
        graph.wf(),
        are_units(graph, constraints, known@),
        start.bindings@.len() == graph.design.cells@.len(),
        refine_outcome(graph, constraints, weights, limit, start, Ok(placement)),
    ensures
        placement.bindings@ == start.bindings@ || whole_stretch(
            graph,
            weights,
            known@,
            all_placed(placement.bindings@),
        ) < whole_stretch(graph, weights, known@, all_placed(start.bindings@)),
{
    let peak = choose|peak: int| #[trigger]
        is_refined_placement(
            graph,
            constraints,
            weights,
            limit,
            Some(start.bindings@),
            placement,
            peak,
        );
    refinement_keeps_or_lowers(
        graph,
        constraints,
        known,
        weights,
        limit,
        &start.bindings,
        placement,
        peak,
    );
}

} // verus!
