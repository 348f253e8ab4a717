//! What comes first.

use vstd::multiset::Multiset;
use vstd::prelude::*;

use crate::cell_moves::CellMove;
use crate::cycles::CongestionObjective;
use crate::device::UnifiedGraph;
use crate::growth_model::GrowthPoint;
use crate::hold::HoldQueueEntry;
use crate::hold_course::is_least;
use crate::model::{BelId, CellId, CellPinId, Connection, Design, NetId, PipId, Point, WireId};
use crate::nearest::{are_nearest, is_reach};
use crate::neighbors::{are_degrees, degree_upto, PlacementWeights};
use crate::net_growth::NetRouter;
use crate::ordered::{OrderedKey, OrderedSet};
use crate::placement_constraints::PlacementConstraints;
use crate::projected_cost::is_total_price;
use crate::projection::RouteCapacityProjection;
use crate::ranking::RankedRow;
use crate::refine_laws::tiles_between;
use crate::routing_costs::RoutingCosts;
use crate::search::{MetResources, RouteQuery, RouteQueueEntry, RouteSearch};
use crate::search_course::comes_first;
use crate::timing_laws::connection_criticality;
use crate::units::PlacementUnit;

verus! {

/// The entry that a hold search takes up has the least estimate of all that wait, and of
/// those with the same estimate the least cost.
pub proof fn a_hold_search_takes_up_the_least_estimate(
    queue: Multiset<HoldQueueEntry>,
    entry: HoldQueueEntry,
    other: HoldQueueEntry,
)
    requires
        is_least(queue, entry),
        queue.contains(other),
    ensures
        entry.estimate <= other.estimate,
        entry.estimate == other.estimate ==> entry.distance <= other.distance,
{
    assert(entry.rank() <= other.rank());
    assert(0 <= entry.state.rank() < 0x1_0000_0000_0000_0000_0000_0000);
    assert(0 <= other.state.rank() < 0x1_0000_0000_0000_0000_0000_0000);
}

/// The entry that a search takes up has the least estimate of all that wait, and of those
/// with the same estimate the least cost.
pub proof fn a_search_takes_up_the_least_estimate(
    queue: Multiset<RouteQueueEntry>,
    entry: RouteQueueEntry,
    other: RouteQueueEntry,
)
    requires
        comes_first(queue, entry),
        queue.contains(other),
    ensures
        entry.estimate <= other.estimate,
        entry.estimate == other.estimate ==> entry.distance <= other.distance,
{
    assert(entry.rank() <= other.rank());
}

/// One iteration is better than another where fewer users are too many, or as many on
/// fewer resources.
pub proof fn fewer_users_too_many_are_better(a: CongestionObjective, b: CongestionObjective)
    ensures
        a.excess < b.excess ==> a.better_than(b),
        a.excess > b.excess ==> !a.better_than(b),
        a.excess == b.excess ==> a.better_than(b) == (a.resources < b.resources),
{
}

/// A sink without a minimum route delay, on a connection that is not recovered, joins by
/// the answer of a search from every wire of the tree.
pub proof fn a_path_is_searched_from_the_whole_tree<'a>(
    router: NetRouter<'a>,
    net: NetId,
    sink: CellPinId,
    goal: WireId,
    estimates: RouteSearch,
    before: GrowthPoint,
    path: (Vec<WireId>, Vec<PipId>),
    met: MetResources,
) -> (found: (RouteSearch, RouteQuery<'a>))
    requires
        router.finds_path(net, sink, goal, estimates, before, path, met),
        router.costs matches Some(costs) ==> !costs.sink_min_delays_ps@.contains_key(
            Connection { net, sink },
        ),
        !router.allow_alternate_source || connection_criticality(router.costs, net, sink) < 40,
    ensures
        found.0.same_estimates(&estimates),
        router.asks(found.1, net, sink, goal, before.arrivals),
        crate::connection::setup_answer(
            found.0,
            found.1,
            &before.tree.wires,
            None,
            Some(path),
            met,
        ),
{
    let (search, query) = choose|search: RouteSearch, query: RouteQuery<'_>|
        {
            &&& search.same_estimates(&estimates)
            &&& #[trigger] router.asks(query, net, sink, goal, before.arrivals)
            &&& #[trigger] router.sink_answer(
                search,
                query,
                &before.tree.wires,
                crate::routing_costs::sink_minimum(router.costs, net, sink),
                Some(path),
                met,
            )
        };
    assert(query.criticality as int == connection_criticality(router.costs, net, sink));
    assert(router.recovery_delay(query) is None);
    (search, query)
}

/// Of the free and legal rows of a unit, those that it is offered begin nearer to the
/// center than those that it is not.
pub proof fn the_nearest_rows_are_offered(
    graph: UnifiedGraph<'_>,
    constraints: &PlacementConstraints,
    occupied: Seq<bool>,
    placed: Seq<Option<BelId>>,
    unit: PlacementUnit,
    center: Point,
    found: OrderedSet<usize>,
    offered: usize,
    other: usize,
)
    requires
        are_nearest(graph, constraints, occupied, placed, unit, center, found),
        found@.contains(offered),
        !found@.contains(other),
        other < unit.choices.count(),
        crate::placement_state::row_is_free(occupied, unit.choices.row(other as int)),
        crate::legality::row_is_legal(
            graph,
            constraints,
            placed,
            unit.cells@,
            unit.choices.row(other as int),
        ),
    ensures
        tiles_between(
            crate::spatial::choice_point(unit.choices, graph.device, offered as int),
            center,
        ) < tiles_between(
            crate::spatial::choice_point(unit.choices, graph.device, other as int),
            center,
        ),
{
    let distance = choose|distance: int|
        0 <= distance < graph.device.width + graph.device.height && #[trigger] is_reach(
            graph,
            constraints,
            occupied,
            placed,
            unit,
            center,
            distance,
            found@,
        );
    assert(crate::nearest::available_within(
        graph,
        constraints,
        occupied,
        placed,
        unit,
        center,
        distance,
        offered as int,
    ));
    assert(!crate::nearest::available_within(
        graph,
        constraints,
        occupied,
        placed,
        unit,
        center,
        distance,
        other as int,
    ));
}

/// Connections between different cells that end at a cell, as far as they are counted.
pub open spec fn incident_count(design: &Design, cell: CellId, net: int, sink: int) -> int
    decreases net, sink,
{
    if sink > 0 {
        let driver = design.pins@[design.nets@[net].driver.0 as int].cell;
        let driven = design.pins@[design.nets@[net].sinks@[sink - 1].0 as int].cell;
        incident_count(design, cell, net, sink - 1) + if driver != driven && (cell == driver
            || cell == driven) {
            1int
        } else {
            0int
        }
    } else if net > 0 {
        incident_count(design, cell, net - 1, design.nets@[net - 1].sinks@.len() as int)
    } else {
        0
    }
}

/// The degree counts the connections.
proof fn lemma_degree(
    design: &Design,
    weights: PlacementWeights<'_>,
    cell: CellId,
    net: int,
    sink: int,
)
    requires
        incident_count(design, cell, net, sink) <= usize::MAX,
    ensures
        degree_upto(design, weights, cell, net, sink) == incident_count(design, cell, net, sink),
        0 <= incident_count(design, cell, net, sink),
    decreases net, sink,
{
    if sink > 0 {
        lemma_count_grows(design, cell, net, sink);
        lemma_degree(design, weights, cell, net, sink - 1);
    } else if net > 0 {
        lemma_degree(
            design,
            weights,
            cell,
            net - 1,
            design.nets@[net - 1].sinks@.len() as int,
        );
    }
}

/// One more sink never lowers the count.
proof fn lemma_count_grows(design: &Design, cell: CellId, net: int, sink: int)
    requires
        sink > 0,
    ensures
        incident_count(design, cell, net, sink - 1) <= incident_count(design, cell, net, sink),
{
}

/// The degree of a cell is the number of connections that join it to another cell,
/// whatever their weights.
pub proof fn a_degree_counts_connections(
    design: &Design,
    weights: PlacementWeights<'_>,
    degree: Seq<usize>,
    cell: usize,
)
    requires
        are_degrees(design, weights, degree),
        cell < degree.len(),
        incident_count(design, CellId(cell), design.nets@.len() as int, 0) <= usize::MAX,
    ensures
        degree[cell as int] == incident_count(
            design,
            CellId(cell),
            design.nets@.len() as int,
            0,
        ),
{
    lemma_degree(design, weights, CellId(cell), design.nets@.len() as int, 0);
    assert(degree[cell as int] == degree[cell as int]);
}

/// Where incumbent routes are known, the far rows of a unit are ranked by what its
/// connections would cost against them, the least first.
pub proof fn far_rows_are_ranked_by_price(
    step: CellMove<'_>,
    placed: Seq<Option<BelId>>,
    projection: &RouteCapacityProjection,
    links: Seq<(CellPinId, CellPinId)>,
    shortlist: Seq<RankedRow>,
    priced: Seq<RankedRow>,
    i: int,
    j: int,
)
    requires
        step.is_priced_ranking(placed, projection, links, shortlist, priced),
        0 <= i < j < priced.len(),
    ensures
        priced[i].score <= priced[j].score,
        is_total_price(
            step.graph,
            step.constraints,
            step.unit.cells@,
            step.unit.choices.row(priced[i].choice as int),
            links,
            placed,
            step.delays,
            projection,
            Some(priced[i].score),
        ),
        is_total_price(
            step.graph,
            step.constraints,
            step.unit.cells@,
            step.unit.choices.row(priced[j].choice as int),
            links,
            placed,
            step.delays,
            projection,
            Some(priced[j].score),
        ),
{
    assert(crate::ranking::ranked_before(*step.unit, priced[i], priced[j]));
    assert(crate::cell_moves::comes_from(shortlist, priced[i]));
    assert(crate::cell_moves::comes_from(shortlist, priced[j]));
    assert(step.has_price(placed, projection, links, priced[i].choice as int, Some(
        priced[i].score,
    )));
    assert(step.has_price(placed, projection, links, priced[j].choice as int, Some(
        priced[j].score,
    )));
}

/// Costs are accepted exactly where both delay tables cover the device, every criticality
/// is one of a connection or net of the design and lies between one and 64, every
/// minimum route delay is one of a connection and not zero, every detailed net is one of
/// the design, and the detailed quantum lies between one and 50 ps.
pub proof fn costs_are_accepted_by_their_ranges(graph: UnifiedGraph<'_>, costs: &RoutingCosts)
    ensures
        crate::cost_validation::costs_valid(graph, costs) <==> {
            &&& costs.pip_delays_ps@.len() == graph.device.pips@.len()
            &&& costs.pip_min_delays_ps@.len() == graph.device.pips@.len()
            &&& forall|n: NetId| #[trigger]
                costs.net_criticalities@.contains_key(n) ==> n.0 < graph.design.nets@.len() && 0
                    < costs.net_criticalities@[n] < 65
            &&& forall|c: Connection| #[trigger]
                costs.sink_criticalities@.contains_key(c) ==> c.net.0 < graph.design.nets@.len()
                    && graph.design.nets@[c.net.0 as int].sinks@.contains(c.sink) && 0
                    < costs.sink_criticalities@[c] < 65
            &&& forall|c: Connection| #[trigger]
                costs.sink_min_delays_ps@.contains_key(c) ==> c.net.0 < graph.design.nets@.len()
                    && graph.design.nets@[c.net.0 as int].sinks@.contains(c.sink) && 0
                    < costs.sink_min_delays_ps@[c]
            &&& forall|n: NetId| #[trigger]
                costs.detailed_timing_nets@.contains(n) ==> n.0 < graph.design.nets@.len()
            &&& 0 < costs.detailed_delay_quantum_ps < 51
        },
{
}

} // verus!
