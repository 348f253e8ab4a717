//! What the callers' tables and requests come to.

use std::sync::Arc;

use vstd::prelude::*;

use crate::choice_laws::{a_corridor_is_a_rectangle_with_a_margin, within_margin};
use crate::course::{sweep_events, NegotiationPoint};
use crate::cycles::RoutingOrderEntry;
use crate::device::UnifiedGraph;
use crate::eco::{is_eco_candidate, LegalRouteEcoConnection};
use crate::eco_nets::is_cohort_candidate;
use crate::finish::all_placed;
use crate::greedy::is_greedy;
use crate::hold::{hold_corridor, nearest_point};
use crate::model::{BelId, CellId, CellPinId, Connection, NetId, Point, WireId};
use crate::negotiate::RoutingProgress;
use crate::neighbors::{are_degrees, are_neighbors, PlacementNeighbor, PlacementWeights};
use crate::net_routing::holds_arc;
use crate::ordered::OrderedMap;
use crate::place::{by_net, by_sink, even, is_refined, is_refined_placement, is_start, place_outcome};
use crate::placement::Placement;
use crate::placement_constraints::PlacementConstraints;
use crate::placement_edit::swapped;
use crate::polish_laws::is_asked;
use crate::polish_queue::Polisher;
use crate::refine_laws::{a_placement_within_its_budgets_stays, tiles_between};
use crate::refine_passes::refines;
use crate::refiner::{limited_outcome, PlacementRefiner};
use crate::retain::retains;
use crate::route::NetRoute;
use crate::routing::PnrResult;
use crate::routing_constraints::RoutingConstraints;
use crate::search::{inside_corridor, RouteQuery};
use crate::standing::units_stand;
use crate::units::PlacementUnit;

verus! {

/// Placing and refining by net weights or by sink weights and free distances goes by the
/// tables that the caller gives, and by no others.
pub proof fn the_weights_are_the_callers_tables<'a>(
    nets: &'a OrderedMap<NetId, u64>,
    sinks: &'a OrderedMap<Connection, u64>,
    budgets: Option<&'a OrderedMap<Connection, u32>>,
)
    ensures
        by_net(nets) == (PlacementWeights {
            net_weights: Some(nets),
            sink_weights: None,
            sink_budgets: None,
        }),
        by_sink(sinks, budgets) == (PlacementWeights {
            net_weights: None,
            sink_weights: Some(sinks),
            sink_budgets: budgets,
        }),
        even() == (PlacementWeights {
            net_weights: None,
            sink_weights: None,
            sink_budgets: None,
        }),
{
}

/// A placement by net weights is placed unit by unit and then refined, both by
/// connections that are weighed by the caller's table.
pub proof fn placing_goes_by_the_net_weights(
    graph: UnifiedGraph<'_>,
    constraints: &PlacementConstraints,
    nets: &OrderedMap<NetId, u64>,
    placement: Placement,
) -> (found: (
    Seq<PlacementUnit>,
    Seq<Vec<PlacementNeighbor>>,
    Seq<usize>,
    Seq<Option<BelId>>,
    int,
))
    requires
        place_outcome(graph, constraints, by_net(nets), Ok(placement)),
    ensures
        are_neighbors(
            graph.design,
            (PlacementWeights { net_weights: Some(nets), sink_weights: None, sink_budgets: None }),
            found.1,
        ),
        is_greedy(graph, constraints, found.2, found.1, found.0, found.3),
        refines(
            graph,
            constraints,
            found.0,
            found.1,
            None,
            found.3,
            all_placed(placement.bindings@),
            found.4,
        ),
{
    lemma_placed(graph, constraints, by_net(nets), placement)
}

/// A placement by sink weights is placed unit by unit and then refined, both by
/// connections that are weighed by the caller's table.
pub proof fn placing_goes_by_the_sink_weights(
    graph: UnifiedGraph<'_>,
    constraints: &PlacementConstraints,
    sinks: &OrderedMap<Connection, u64>,
    placement: Placement,
) -> (found: (
    Seq<PlacementUnit>,
    Seq<Vec<PlacementNeighbor>>,
    Seq<usize>,
    Seq<Option<BelId>>,
    int,
))
    requires
        place_outcome(graph, constraints, by_sink(sinks, None), Ok(placement)),
    ensures
        are_neighbors(
            graph.design,
            (PlacementWeights { net_weights: None, sink_weights: Some(sinks), sink_budgets: None }),
            found.1,
        ),
        is_greedy(graph, constraints, found.2, found.1, found.0, found.3),
        refines(
            graph,
            constraints,
            found.0,
            found.1,
            None,
            found.3,
            all_placed(placement.bindings@),
            found.4,
        ),
{
    lemma_placed(graph, constraints, by_sink(sinks, None), placement)
}

/// What placing goes through.
proof fn lemma_placed(
    graph: UnifiedGraph<'_>,
    constraints: &PlacementConstraints,
    weights: PlacementWeights<'_>,
    placement: Placement,
) -> (found: (
    Seq<PlacementUnit>,
    Seq<Vec<PlacementNeighbor>>,
    Seq<usize>,
    Seq<Option<BelId>>,
    int,
))
    requires
        place_outcome(graph, constraints, weights, Ok(placement)),
    ensures
        are_neighbors(graph.design, weights, found.1),
        are_degrees(graph.design, weights, found.2),
        is_greedy(graph, constraints, found.2, found.1, found.0, found.3),
        refines(
            graph,
            constraints,
            found.0,
            found.1,
            None,
            found.3,
            all_placed(placement.bindings@),
            found.4,
        ),
{
    assert(is_refined(graph, constraints, weights, None, None, placement));
    let peak = choose|peak: int| #[trigger]
        is_refined_placement(graph, constraints, weights, None, None, placement, peak);
    let (units, lists, placed) = choose|
        units: Seq<PlacementUnit>,
        lists: Seq<Vec<PlacementNeighbor>>,
        placed: Seq<Option<BelId>>,
    |
        {
            &&& #[trigger] crate::unit_list::are_units(graph, constraints, units)
            &&& are_neighbors(graph.design, weights, lists)
            &&& units_stand(units, placed)
            &&& is_start(graph, constraints, weights, units, lists, None, placed)
            &&& #[trigger] refines(
                graph,
                constraints,
                units,
                lists,
                None,
                placed,
                all_placed(placement.bindings@),
                peak,
            )
        };
    let degree = choose|degree: Seq<usize>|
        are_degrees(graph.design, weights, degree) && #[trigger] is_greedy(
            graph,
            constraints,
            degree,
            lists,
            units,
            placed,
        );
    (units, lists, degree, placed, peak)
}

/// Every connection between different cells spans at most its entry in the table.
pub open spec fn spans_within(
    graph: UnifiedGraph<'_>,
    bindings: Seq<BelId>,
    budgets: Map<Connection, u32>,
) -> bool {
    let design = graph.design;
    let bels = graph.device.bels@;
    forall|net: int, sink: int|
        #![trigger design.nets@[net].sinks@[sink]]
        0 <= net < design.nets@.len() && 0 <= sink < design.nets@[net].sinks@.len() ==> {
            let pin = design.nets@[net].sinks@[sink];
            let connection = Connection { net: NetId(net as usize), sink: pin };
            let driver = design.pins@[design.nets@[net].driver.0 as int].cell;
            let driven = design.pins@[pin.0 as int].cell;
            driver != driven ==> budgets.contains_key(connection) && tiles_between(
                bels[bindings[driver.0 as int].0 as int].point,
                bels[bindings[driven.0 as int].0 as int].point,
            ) <= budgets[connection]
        }
}

/// Refinement by sink weights and free distances returns a legal placement as it is where
/// every connection spans at most the free distance that the caller gives it.
pub proof fn free_distances_hold_a_placement(
    refiner: PlacementRefiner<'_>,
    start: Placement,
    sinks: &OrderedMap<Connection, u64>,
    budgets: &OrderedMap<Connection, u32>,
    limit: usize,
    placement: Placement,
    peak: usize,
)
    requires
        refiner.wf(),
        limited_outcome(
            refiner,
            start,
            by_sink(sinks, Some(budgets)),
            limit,
            Ok((placement, peak)),
        ),
        spans_within(refiner.graph, start.bindings@, budgets@),
    ensures
        placement.bindings@ == start.bindings@,
{
    let weights = by_sink(sinks, Some(budgets));
    assert(crate::refine_laws::all_within_budgets(refiner.graph, weights, start.bindings@)) by {
        let design = refiner.graph.design;
        assert forall|net: int, sink: int|
            #![trigger design.nets@[net].sinks@[sink]]
            0 <= net < design.nets@.len() && 0 <= sink < design.nets@[net].sinks@.len() implies {
            let pin = design.nets@[net].sinks@[sink];
            let driver = design.pins@[design.nets@[net].driver.0 as int].cell;
            let driven = design.pins@[pin.0 as int].cell;
            driver != driven ==> tiles_between(
                refiner.graph.device.bels@[start.bindings@[driver.0 as int].0 as int].point,
                refiner.graph.device.bels@[start.bindings@[driven.0 as int].0 as int].point,
            ) <= crate::refine_laws::free_distance(
                weights,
                Connection { net: NetId(net as usize), sink: pin },
            )
        } by {
            let pin = design.nets@[net].sinks@[sink];
            let connection = Connection { net: NetId(net as usize), sink: pin };
            assert(budgets@.contains_key(connection) ==> crate::refine_laws::free_distance(
                weights,
                connection,
            ) == budgets@[connection]);
        }
    }
    a_placement_within_its_budgets_stays(refiner, start, weights, limit, placement, peak);
}

/// Swapping two cells exchanges their BELs and leaves every other cell where it is.
pub proof fn a_swap_exchanges_two_bels(
    bindings: Seq<BelId>,
    left: CellId,
    right: CellId,
    cell: CellId,
)
    requires
        left.0 < bindings.len(),
        right.0 < bindings.len(),
        cell.0 < bindings.len(),
    ensures
        swapped(bindings, left, right).len() == bindings.len(),
        swapped(bindings, left, right)[left.0 as int] == bindings[right.0 as int],
        swapped(bindings, left, right)[right.0 as int] == bindings[left.0 as int],
        cell != left && cell != right ==> swapped(bindings, left, right)[cell.0 as int]
            == bindings[cell.0 as int],
{
}

/// A candidate for one connection leaves every other net alone, keeps every other arc of
/// the net, reaches every sink, differs from the incumbent, and takes no forbidden PIP.
pub proof fn a_candidate_changes_one_connection(
    graph: UnifiedGraph<'_>,
    incumbent: &PnrResult,
    constraints: &RoutingConstraints,
    connection: LegalRouteEcoConnection,
    candidate: PnrResult,
    other: int,
    arc: int,
    hop: int,
)
    requires
        connection.net.0 < incumbent.routes@.len(),
        is_eco_candidate(graph, incumbent, constraints, connection, candidate),
    ensures
        candidate.routes@.len() == incumbent.routes@.len(),
        0 <= other < incumbent.routes@.len() && other != connection.net.0
            ==> candidate.routes@[other] == incumbent.routes@[other],
        0 <= arc < incumbent.routes@[connection.net.0 as int].arcs@.len()
            && incumbent.routes@[connection.net.0 as int].arcs@[arc].sink != Some(connection.sink)
            ==> holds_arc(
            candidate.routes@[connection.net.0 as int].arcs@,
            incumbent.routes@[connection.net.0 as int].arcs@[arc],
        ),
        0 <= arc < candidate.routes@[connection.net.0 as int].arcs@.len() && 0 <= hop
            < candidate.routes@[connection.net.0 as int].arcs@[arc].pips@.len()
            ==> !constraints.blocked_pips@.contains(
            candidate.routes@[connection.net.0 as int].arcs@[arc].pips@[hop],
        ),
        !candidate.routes@[connection.net.0 as int].same_arcs(
            &*incumbent.routes@[connection.net.0 as int],
        ),
{
    let n = connection.net.0 as int;
    if 0 <= arc < incumbent.routes@[n].arcs@.len() && incumbent.routes@[n].arcs@[arc].sink != Some(
        connection.sink,
    ) {
        assert(crate::eco::is_sibling(incumbent.routes@[n].arcs@[arc], connection.sink));
    }
    if 0 <= arc < candidate.routes@[n].arcs@.len() && 0 <= hop
        < candidate.routes@[n].arcs@[arc].pips@.len() {
        assert(candidate.routes@[n].arcs@[arc].pips@[hop]
            == candidate.routes@[n].arcs@[arc].pips@[hop]);
    }
}

/// A candidate for a cohort leaves every net outside of it alone, and gives each of its
/// nets an arc to every sink.
pub proof fn a_cohort_candidate_changes_its_nets(
    graph: UnifiedGraph<'_>,
    incumbent: &PnrResult,
    constraints: &RoutingConstraints,
    selected: Set<NetId>,
    candidate: PnrResult,
    net: usize,
    sink: int,
)
    requires
        is_cohort_candidate(graph, incumbent, constraints, selected, candidate),
        net < incumbent.routes@.len(),
    ensures
        candidate.routes@.len() == incumbent.routes@.len(),
        !selected.contains(NetId(net)) ==> candidate.routes@[net as int]
            == incumbent.routes@[net as int],
        selected.contains(NetId(net)) && 0 <= sink < graph.design.nets@[net as int].sinks@.len()
            ==> exists|i: int|
            0 <= i < candidate.routes@[net as int].arcs@.len() && (
            #[trigger] candidate.routes@[net as int].arcs@[i]).sink == Some(
                graph.design.nets@[net as int].sinks@[sink],
            ),
{
    if selected.contains(NetId(net)) && 0 <= sink < graph.design.nets@[net as int].sinks@.len() {
        assert(candidate.routes@[net as int].reaches(graph.design.nets@[net as int].sinks@[sink]));
    }
}

/// What is retained of a route for some sinks are its arcs to those sinks and its arcs
/// without a sink, and no others.
pub proof fn a_retained_route_keeps_the_asked_arcs(
    route: NetRoute,
    sinks: Set<CellPinId>,
    kept: NetRoute,
    i: int,
)
    requires
        retains(route, sinks, kept),
    ensures
        kept.net == route.net,
        0 <= i < route.arcs@.len() && (route.arcs@[i].sink matches Some(sink)
            ==> sinks.contains(sink)) ==> holds_arc(kept.arcs@, route.arcs@[i]),
        0 <= i < kept.arcs@.len() ==> holds_arc(route.arcs@, kept.arcs@[i]) && (
        kept.arcs@[i].sink matches Some(sink) ==> sinks.contains(sink)),
{
    if 0 <= i < route.arcs@.len() && (route.arcs@[i].sink matches Some(sink) ==> sinks.contains(
        sink,
    )) {
        assert(crate::retain::leads_to(route.arcs@[i], sinks));
    }
    if 0 <= i < kept.arcs@.len() {
        assert(crate::retain::leads_to(kept.arcs@[i], sinks));
    }
}

/// An iteration is announced with its number and that of its nets, and then each net in
/// its turn with its ordinal from one on.
pub proof fn every_net_is_announced_in_its_turn(
    iteration: int,
    point: NegotiationPoint,
    order: Seq<RoutingOrderEntry>,
    count: int,
    at: int,
)
    requires
        0 <= iteration <= u32::MAX,
        0 <= at < count <= order.len(),
        count < usize::MAX,
    ensures
        ({
            let events = sweep_events(iteration, point, order, count);
            let total = crate::conflicts::dirty_net_set(point.dirty).len() as usize;
            &&& events.len() == count + 1
            &&& events[0] == RoutingProgress::Iteration { iteration: iteration as u32, nets: total }
            &&& events[at + 1] == RoutingProgress::Net {
                iteration: iteration as u32,
                ordinal: (at + 1) as usize,
                total,
                net: NetId(order[at].index),
            }
        }),
{
}

/// The corridor of a hold search reaches four tiles around the rectangle of the goal and
/// of the tree's nearest tile.
pub proof fn a_hold_corridor_reaches_four_tiles(
    query: RouteQuery<'_>,
    starts: Set<WireId>,
    point: Point,
)
    requires
        query.graph.device.holds(nearest_point(query, starts)),
        query.graph.device.holds(query.metadata.wire_points@[query.goal.0 as int]),
        query.graph.device.holds(point),
    ensures
        ({
            let start = nearest_point(query, starts);
            let goal = query.metadata.wire_points@[query.goal.0 as int];
            inside_corridor(point, hold_corridor(query, starts)) == (within_margin(
                point.x as int,
                start.x as int,
                goal.x as int,
                4,
            ) && within_margin(point.y as int, start.y as int, goal.y as int, 4))
        }),
{
    a_corridor_is_a_rectangle_with_a_margin(
        nearest_point(query, starts),
        query.metadata.wire_points@[query.goal.0 as int],
        query.graph.device,
        4,
        point,
    );
}

/// Polishing leaves every net alone of which no connection is asked for.
pub proof fn polishing_leaves_other_nets_alone(
    polisher: Polisher<'_>,
    before: Seq<Option<Arc<NetRoute>>>,
    after: Seq<Option<Arc<NetRoute>>>,
    net: int,
)
    requires
        polisher.others_kept(before, after),
        0 <= net < before.len(),
        forall|c: Connection| c.net.0 == net ==> !#[trigger] is_asked(polisher, before, c),
    ensures
        after[net] == before[net],
{
    assert(!polisher.net_asked(before, net)) by {
        if polisher.net_asked(before, net) {
            let c = choose|c: Connection| #[trigger]
                polisher.may_improve(c, before) && c.net.0 == net;
            crate::polish_laws::polishing_asks_for_the_critical(polisher, before, c);
            assert(is_asked(polisher, before, c));
        }
    }
}

} // verus!
