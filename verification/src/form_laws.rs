//! What searches, polishers and counts are made of.

use vstd::prelude::*;

use crate::candidates::choice_pin;
use crate::device::UnifiedGraph;
use crate::families::first_yes;
use crate::metrics::square_count;
use crate::model::{BelId, BelPinId, CellPinId, NetId, PipId, Point, WireId};
use crate::neighbors::PlacementNeighbor;
use crate::ordered::OrderedSet;
use crate::placement::{PinWireCache, Placement};
use crate::placement_constraints::PlacementConstraints;
use crate::polish::polisher_of;
use crate::refine_passes::{are_passes, is_refine_order, refines, RefineOrder, RefinePass};
use crate::refiner::PlacementRefiner;
use crate::routing::first_slots;
use crate::routing_constraints::RoutingConstraints;
use crate::routing_costs::RoutingCosts;
use crate::search::{space_of, RouteQuery, RouteSearch, RoutingCorridor};
use crate::units::PlacementUnit;

verus! {

/// A search may take a hop exactly where the PIP leads from the one wire to the other and
/// is not forbidden, both have room under a hard occupancy, the wire is neither one that
/// the search starts from nor one that it is to avoid, and it lies in the corridor.
pub proof fn a_hop_is_open_by_the_rules(
    query: RouteQuery<'_>,
    starts: &OrderedSet<WireId>,
    avoid: Option<&OrderedSet<WireId>>,
    corridor: Option<RoutingCorridor>,
    from: WireId,
    pip: PipId,
    to: WireId,
)
    ensures
        space_of(query, starts, avoid, corridor).hop(from, pip, to) <==> {
            let record = query.graph.device.pips@[pip.0 as int];
            let point = query.metadata.wire_points@[to.0 as int];
            &&& pip.0 < query.graph.device.pips@.len()
            &&& (record.from == from && record.to == to) || (record.bidirectional && record.from
                == to && record.to == from)
            &&& !crate::search::blocked_in(query.blocked_pip_words@, pip)
            &&& query.hard_occupancy matches Some(occupancy) ==> occupancy.wires@[to.0 as int]
                < query.metadata.wire_capacities@[to.0 as int] && occupancy.pips@[pip.0 as int]
                < query.metadata.pip_capacities@[pip.0 as int]
            &&& !starts@.contains(to)
            &&& avoid matches Some(wires) ==> !wires@.contains(to)
            &&& corridor matches Some(corridor) ==> corridor.0 <= point.x && point.x <= corridor.1
                && corridor.2 <= point.y && point.y <= corridor.3
        },
        space_of(query, starts, avoid, corridor).query == query,
        space_of(query, starts, avoid, corridor).starts == starts@,
{
}

/// A polisher works on what the caller gives it.
pub proof fn a_polisher_works_for_its_caller<'a>(
    graph: &UnifiedGraph<'a>,
    placement: &'a Placement,
    pin_wires: &'a PinWireCache,
    constraints: &'a RoutingConstraints,
    costs: &'a RoutingCosts,
)
    ensures
        ({
            let polisher = polisher_of(graph, placement, pin_wires, constraints, costs);
            &&& polisher.graph == *graph
            &&& polisher.placement == placement
            &&& polisher.constraints == constraints
            &&& polisher.costs == costs
        }),
{
}

/// A routing begins with the immutable routes of the caller, and with nothing for every
/// other net.
pub proof fn a_routing_begins_with_the_immutable_routes(
    graph: UnifiedGraph<'_>,
    constraints: &RoutingConstraints,
    net: usize,
)
    requires
        net < graph.design.nets@.len(),
    ensures
        first_slots(graph.design, constraints).len() == graph.design.nets@.len(),
        constraints.routes@.contains_key(NetId(net)) ==> first_slots(
            graph.design,
            constraints,
        )[net as int] == Some(constraints.routes@[NetId(net)]),
        !constraints.routes@.contains_key(NetId(net)) ==> first_slots(
            graph.design,
            constraints,
        )[net as int] is None,
{
}

/// Refinement makes at least one pass and at most four.
pub proof fn refinement_makes_up_to_four_passes(
    graph: UnifiedGraph<'_>,
    constraints: &PlacementConstraints,
    units: Seq<PlacementUnit>,
    neighbors: Seq<Vec<PlacementNeighbor>>,
    limit: Option<usize>,
    before: Seq<Option<BelId>>,
    after: Seq<Option<BelId>>,
    peak: int,
) -> (found: (Seq<RefineOrder>, Seq<RefinePass>))
    requires
        refines(graph, constraints, units, neighbors, limit, before, after, peak),
    ensures
        is_refine_order(units, neighbors, found.0),
        are_passes(graph, constraints, units, neighbors, found.0, limit, found.1),
        1 <= found.1.len() <= 4,
        found.1[0].0[0] == before,
        found.1.last().0.last() == after,
{
    let (order, passes) = choose|order: Seq<RefineOrder>, passes: Seq<RefinePass>|
        {
            &&& is_refine_order(units, neighbors, order)
            &&& #[trigger] are_passes(graph, constraints, units, neighbors, order, limit, passes)
            &&& 0 < passes.len() <= crate::refine_passes::MAX_PLACEMENT_REFINEMENT_PASSES
            &&& passes[0].0[0] == before
            &&& passes.last().0.last() == after
        };
    (order, passes)
}

/// The standard estimate is 100 ps and 100 ps for every tile.
pub proof fn the_standard_estimate_is_a_hundred_per_tile(search: RouteSearch)
    ensures
        search.has_standard_estimates() <==> search.estimate_base_delay_ps == 100
            && search.estimate_delay_per_tile_ps == 100,
{
}

/// The ends of a predicted connection are the BELs of the driver's cell and of the sink's
/// cell, with the pins that the two logical pins take there.
pub proof fn a_predicted_connection_ends_at_its_pins(
    refiner: PlacementRefiner<'_>,
    placement: Placement,
    net: NetId,
    sink: CellPinId,
    ends: (BelId, BelPinId, BelId, BelPinId),
)
    requires
        refiner.arc_ends(placement, net, sink) == Some(ends),
    ensures
        ({
            let design = refiner.graph.design;
            let driver = design.nets@[net.0 as int].driver;
            &&& placement.bel_of(design.pins@[driver.0 as int].cell) == Some(ends.0)
            &&& placement.bel_of(design.pins@[sink.0 as int].cell) == Some(ends.2)
            &&& choice_pin(refiner.graph, refiner.constraints, driver, ends.0) == Some(ends.1)
            &&& choice_pin(refiner.graph, refiner.constraints, sink, ends.2) == Some(ends.3)
        }),
{
}

/// A square of tiles counts one more point where the point lies in it and on the grid, and
/// as many as before where it does not.
pub proof fn a_square_counts_the_points_in_it(
    points: Seq<Point>,
    point: Point,
    width: int,
    height: int,
    side: int,
    x: int,
    y: int,
)
    ensures
        square_count(Seq::<Point>::empty(), width, height, side, x, y) == 0,
        square_count(points.push(point), width, height, side, x, y) == square_count(
            points,
            width,
            height,
            side,
            x,
            y,
        ) + if x <= point.x < x + side && point.x < width && y <= point.y < y + side && point.y
            < height {
            1int
        } else {
            0int
        },
{
    assert(points.push(point).drop_last() =~= points);
}

/// The first yes is a yes, and every answer before it is a no.
pub proof fn the_first_yes_is_the_first(answers: Seq<bool>)
    ensures
        match first_yes(answers) {
            Some(at) => 0 <= at < answers.len() && answers[at] && forall|i: int|
                0 <= i < at ==> !#[trigger] answers[i],
            None => forall|i: int| 0 <= i < answers.len() ==> !#[trigger] answers[i],
        },
    decreases answers.len(),
{
    if answers.len() > 0 {
        let rest = answers.drop_last();
        the_first_yes_is_the_first(rest);
        match first_yes(rest) {
            Some(at) => {
                assert(rest[at] == answers[at]);
                assert forall|i: int| 0 <= i < at implies !#[trigger] answers[i] by {
                    assert(rest[i] == answers[i]);
                }
            },
            None => {
                assert forall|i: int| 0 <= i < rest.len() implies !#[trigger] answers[i] by {
                    assert(rest[i] == answers[i]);
                }
            },
        }
    }
}

} // verus!
