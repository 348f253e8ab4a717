//! What the choices along the way go by.

use vstd::prelude::*;

use crate::connection::{earliest_start, timing_corridor};
use crate::course::NegotiationPoint;
use crate::cycles::{members, RoutingOrderEntry};
use crate::device::{Device, UnifiedGraph};
use crate::growth_model::GrowthPoint;
use crate::hold_laws::delay_sum;
use crate::model::{BelId, CellId, CellPinId, Connection, NetId, PipId, Point, WireId};
use crate::neighbors::PlacementNeighbor;
use crate::net_growth::NetRouter;
use crate::net_router::path_score;
use crate::ordered::{OrderedKey, OrderedSet};
use crate::placement::pin_wire;
use crate::refine_passes::{edges_of, heaviest, is_refine_order, order_key, RefineOrder};
use crate::route::RouteArc;
use crate::routing_costs::RoutingCosts;
use crate::row_cost::bel_point;
use crate::search::{corridor_between, inside_corridor, MetResources, RouteQuery, RouteSearch};
use crate::targets::{pull_of, TimingArc};
use crate::timing_laws::{hop_price, route_price};
use crate::trial::Trial;
use crate::units::PlacementUnit;

verus! {

/// The coordinate lies between the two others, or at most so far past them.
pub open spec fn within_margin(value: int, a: int, b: int, margin: int) -> bool {
    (a - margin <= value || b - margin <= value) && (value <= a + margin || value <= b + margin)
}

/// A corridor holds exactly the tiles of the device that lie in the rectangle of its two
/// ends or within the margin around it.
pub proof fn a_corridor_is_a_rectangle_with_a_margin(
    start: Point,
    goal: Point,
    device: &Device,
    margin: u32,
    point: Point,
)
    requires
        device.holds(start),
        device.holds(goal),
        device.holds(point),
    ensures
        inside_corridor(point, corridor_between(start, goal, device, margin as int)) == (
        within_margin(point.x as int, start.x as int, goal.x as int, margin as int)
            && within_margin(point.y as int, start.y as int, goal.y as int, margin as int)),
{
}

/// The corridor of a timed connection reaches four tiles around the rectangle of the
/// goal and of the tree wire from which it is anchored.
pub proof fn a_timing_corridor_reaches_four_tiles(
    query: RouteQuery<'_>,
    starts: Set<WireId>,
    point: Point,
)
    requires
        query.graph.device.holds(
            query.metadata.wire_points@[earliest_start(query, starts).0 as int],
        ),
        query.graph.device.holds(query.metadata.wire_points@[query.goal.0 as int]),
        query.graph.device.holds(point),
    ensures
        ({
            let start = query.metadata.wire_points@[earliest_start(query, starts).0 as int];
            let goal = query.metadata.wire_points@[query.goal.0 as int];
            inside_corridor(point, timing_corridor(query, starts)) == (within_margin(
                point.x as int,
                start.x as int,
                goal.x as int,
                4,
            ) && within_margin(point.y as int, start.y as int, goal.y as int, 4))
        }),
{
    let start = query.metadata.wire_points@[earliest_start(query, starts).0 as int];
    let goal = query.metadata.wire_points@[query.goal.0 as int];
    a_corridor_is_a_rectangle_with_a_margin(start, goal, query.graph.device, 4, point);
}

/// The score of a path is its price, where that is in range.
proof fn lemma_score_is_price(
    query: RouteQuery<'_>,
    wires: Seq<WireId>,
    pips: Seq<PipId>,
    hops: int,
)
    requires
        query.delay_quantum_ps == 50,
        wires.len() == pips.len() + 1,
        0 <= hops <= pips.len(),
    ensures
        path_score(query, wires, pips, hops) == if route_price(
            query,
            wires.reverse(),
            pips.reverse(),
            hops,
        ) > u64::MAX {
            u64::MAX as int
        } else {
            route_price(query, wires.reverse(), pips.reverse(), hops)
        },
        0 <= route_price(query, wires.reverse(), pips.reverse(), hops),
    decreases hops,
{
    crate::cost::lemma_ceil_div(query.tree_delays_ps@[wires.last().0 as int] as int, 50);
    assert(wires.reverse()[0] == wires.last());
    if hops > 0 {
        lemma_score_is_price(query, wires, pips, hops - 1);
        let pip = pips[pips.len() - hops];
        let to = wires[wires.len() - 1 - hops];
        assert(pips.reverse()[hops - 1] == pip);
        assert(wires.reverse()[hops] == to);
        crate::cost::lemma_ceil_div(query.pip_delay(pip), 50);
        assert(crate::cost::ceil_div(50, 50) == 1);
        assert(query.congestion(pip, to) * 1 == query.congestion(pip, to));
        assert(crate::net_router::path_step(query, wires, pips, hops) == hop_price(
            query,
            pip,
            to,
        ));
    }
}

/// Recovering a critical connection from another wire of the tree never makes it dearer
/// than the path that was found first.
pub proof fn a_recovered_path_is_no_dearer(
    router: NetRouter<'_>,
    search: RouteSearch,
    query: RouteQuery<'_>,
    tree: &OrderedSet<WireId>,
    delay_per_tile_ps: u64,
    first: (Vec<WireId>, Vec<PipId>),
    path: (Vec<WireId>, Vec<PipId>),
    met: MetResources,
)
    requires
        query.delay_quantum_ps == 50,
        first.0@.len() == first.1@.len() + 1,
        path.0@.len() == path.1@.len() + 1,
        router.recovers(search, query, tree, delay_per_tile_ps, first, Some(path), met),
    ensures
        route_price(query, first.0@.reverse(), first.1@.reverse(), first.1@.len() as int)
            < u64::MAX ==> route_price(
            query,
            path.0@.reverse(),
            path.1@.reverse(),
            path.1@.len() as int,
        ) <= route_price(
            query,
            first.0@.reverse(),
            first.1@.reverse(),
            first.1@.len() as int,
        ),
{
    let other = choose|other: Option<(Vec<WireId>, Vec<PipId>)>|
        #[trigger] crate::net_growth::is_recovery(
            search,
            query,
            tree,
            delay_per_tile_ps,
            first,
            other,
            met,
        ) && Some(path) == if other is Some {
            other
        } else {
            Some(first)
        };
    lemma_score_is_price(query, first.0@, first.1@, first.1@.len() as int);
    lemma_score_is_price(query, path.0@, path.1@, path.1@.len() as int);
    if other is Some {
        let (now, source) = choose|
            now: RouteSearch,
            source: Option<crate::net_router::AlternateSource>,
        |
            {
                &&& now.same_estimates(&search)
                &&& #[trigger] crate::net_growth::is_choice(
                    now,
                    query,
                    tree,
                    delay_per_tile_ps,
                    first,
                    source,
                )
                &&& match source {
                    Some(start) => crate::net_growth::is_retry(
                        search,
                        query,
                        tree,
                        start.wire,
                        first,
                        other,
                        met,
                    ),
                    None => other is None,
                }
            };
        assert(crate::net_growth::is_retry(
            search,
            query,
            tree,
            (source->0).wire,
            first,
            other,
            met,
        ));
    }
}

/// A sink with a minimum route delay that the tree serves already is served late enough:
/// the arrival at its wire is at least the entry of the caller's table.
pub proof fn a_served_hold_sink_is_late(
    router: NetRouter<'_>,
    net: NetId,
    sink: CellPinId,
    goal: WireId,
    estimates: RouteSearch,
    before: GrowthPoint,
    after: GrowthPoint,
    costs: &RoutingCosts,
)
    requires
        router.costs == Some(costs),
        costs.sink_min_delays_ps@.contains_key(Connection { net, sink }),
        router.joins_sink(net, sink, estimates, before, after),
        pin_wire(router.graph, router.placement, sink) == Some(goal),
        before.tree.wires@.contains(goal),
    ensures
        before.arrivals[goal.0 as int] >= costs.sink_min_delays_ps@[Connection { net, sink }],
{
}

/// The arrival along an immutable arc is the sum of the maximum delays of its PIPs.
pub proof fn an_immutable_arc_arrives_by_maximum_delays(
    router: NetRouter<'_>,
    costs: &RoutingCosts,
    arrivals: Seq<u64>,
    arc: RouteArc,
    steps: int,
)
    requires
        router.costs == Some(costs),
        0 <= steps <= arc.pips@.len(),
        delay_sum(costs.pip_delays_ps@, arc.pips@.take(steps)) <= u64::MAX,
    ensures
        router.arc_arrivals(arrivals, arc, steps).1 == delay_sum(
            costs.pip_delays_ps@,
            arc.pips@.take(steps),
        ),
    decreases steps,
{
    if steps > 0 {
        assert(arc.pips@.take(steps).drop_last() =~= arc.pips@.take(steps - 1));
        assert(arc.pips@.take(steps).last() == arc.pips@[steps - 1]);
        an_immutable_arc_arrives_by_maximum_delays(router, costs, arrivals, arc, steps - 1);
    }
}

/// The heaviest edge of a list is one of it, and none is heavier.
proof fn lemma_heaviest(list: Seq<PlacementNeighbor>)
    ensures
        forall|k: int| 0 <= k < list.len() ==> (#[trigger] list[k]).weight <= heaviest(list),
        list.len() > 0 && heaviest(list) > 0 ==> exists|k: int|
            0 <= k < list.len() && (#[trigger] list[k]).weight == heaviest(list),
    decreases list.len(),
{
    if list.len() > 0 {
        let rest = list.drop_last();
        lemma_heaviest(rest);
        assert(list[list.len() - 1] == list.last());
        assert forall|k: int| 0 <= k < list.len() implies (#[trigger] list[k]).weight <= heaviest(
            list,
        ) by {
            if k < list.len() - 1 {
                assert(rest[k] == list[k]);
            }
        }
        if list.last().weight != heaviest(list) && heaviest(list) > 0 {
            assert(rest.len() > 0);
            let k = choose|k: int|
                0 <= k < rest.len() && (#[trigger] rest[k]).weight == heaviest(rest);
            assert(list[k] == rest[k]);
        }
    }
}

/// Refinement offers a move to the units with the heaviest connections first: whatever
/// connects a later unit, some connection of an earlier one is as heavy.
pub proof fn the_heaviest_unit_comes_first(
    units: Seq<PlacementUnit>,
    neighbors: Seq<Vec<PlacementNeighbor>>,
    order: Seq<RefineOrder>,
    i: int,
    j: int,
    k: int,
) -> (found: int)
    requires
        units.len() <= usize::MAX,
        is_refine_order(units, neighbors, order),
        0 <= i < j < order.len(),
        ({
            let cells = units[order[j].index as int].cells@;
            let edges = edges_of(cells, neighbors, cells.len() as int);
            0 <= k < edges.len() && edges[k].weight > 0
        }),
    ensures
        ({
            let later = units[order[j].index as int].cells@;
            let cells = units[order[i].index as int].cells@;
            let edges = edges_of(cells, neighbors, cells.len() as int);
            &&& 0 <= found < edges.len()
            &&& edges[found].weight >= edges_of(later, neighbors, later.len() as int)[k].weight
        }),
{
    let keys = Seq::new(units.len(), |u: int| order_key(units, neighbors, u));
    let a = crate::ordered::lemma_counterpart(order, keys, i);
    let b = crate::ordered::lemma_counterpart(order, keys, j);
    assert(order[i].index == a && order[j].index == b);
    let cells = units[a].cells@;
    let later = units[b].cells@;
    let edges = edges_of(cells, neighbors, cells.len() as int);
    let others = edges_of(later, neighbors, later.len() as int);
    lemma_heaviest(edges);
    lemma_heaviest(others);
    assert(order[i].rank() <= order[j].rank());
    lemma_refine_digits(order[i], order[j]);
    assert(others[k].weight <= heaviest(others));
    assert(edges.len() > 0);
    choose|k: int| 0 <= k < edges.len() && (#[trigger] edges[k]).weight == heaviest(edges)
}

/// Units in order compare by their heaviest edge first.
proof fn lemma_refine_digits(a: RefineOrder, b: RefineOrder)
    requires
        a.rank() <= b.rank(),
    ensures
        a.maximum >= b.maximum,
{
}

/// A timed connection of which one end belongs to the unit pulls by what its criticality
/// is above one, to where the unit would stand if that end stood on the tile of the
/// other, as long as that is on the device.
pub proof fn a_timed_connection_pulls_to_its_other_end(
    graph: UnifiedGraph<'_>,
    unit: Seq<CellId>,
    timing: TimingArc,
    placed: Seq<Option<BelId>>,
    moving: CellId,
    opposite: CellId,
)
    requires
        timing.criticality > 1,
        ({
            let driver = graph.design.pins@[graph.design.nets@[timing.arc.net.0 as int].driver.0 as int].cell;
            let sink = graph.design.pins@[timing.arc.sink.0 as int].cell;
            (moving == driver && opposite == sink) || (moving == sink && opposite == driver)
        }),
        unit.contains(moving),
        !unit.contains(opposite),
        ({
            let origin = bel_point(graph.device, placed[unit[0].0 as int]->0);
            let stands = bel_point(graph.device, placed[moving.0 as int]->0);
            let target = bel_point(graph.device, placed[opposite.0 as int]->0);
            &&& 0 <= origin.x + target.x - stands.x < graph.device.width
            &&& 0 <= origin.y + target.y - stands.y < graph.device.height
        }),
    ensures
        ({
            let origin = bel_point(graph.device, placed[unit[0].0 as int]->0);
            let stands = bel_point(graph.device, placed[moving.0 as int]->0);
            let target = bel_point(graph.device, placed[opposite.0 as int]->0);
            pull_of(graph, unit, timing, placed) matches Some(pull) && pull.weight
                == timing.criticality - 1 && pull.point.x == origin.x + target.x - stands.x
                && pull.point.y == origin.y + target.y - stands.y
        }),
{
}

/// The members of one side come in the order of the list.
proof fn lemma_side(
    order: Seq<RoutingOrderEntry>,
    component: Set<usize>,
    inside: bool,
    at: int,
)
    requires
        0 <= at < members(order, component, inside).len(),
    ensures
        component.contains(members(order, component, inside)[at].index) == inside,
{
    crate::cycles::lemma_members(order, component, inside, members(order, component, inside)[at]);
    assert(members(order, component, inside).contains(members(order, component, inside)[at]));
}

/// The nets of a cycle are routed before all others.
pub proof fn a_cycle_comes_first(
    trial: Trial<'_>,
    point: NegotiationPoint,
    order: Seq<RoutingOrderEntry>,
    i: int,
    j: int,
)
    requires
        trial.is_order(point, order),
        point.priority != Set::<usize>::empty(),
        0 <= i < j < order.len(),
        point.priority.contains(order[j].index),
    ensures
        point.priority.contains(order[i].index),
{
    let sorted = choose|sorted: Seq<RoutingOrderEntry>| #[trigger]
        trial.lists_dirty(point.dirty, sorted) && order == members(
            sorted,
            point.priority,
            true,
        ).reverse() + members(sorted, point.priority, false);
    let first = members(sorted, point.priority, true);
    let rest = members(sorted, point.priority, false);
    if j >= first.len() {
        lemma_side(sorted, point.priority, false, j - first.len());
        assert(order[j] == rest[j - first.len()]);
    }
    lemma_side(sorted, point.priority, true, first.len() - 1 - i);
    assert(order[i] == first[first.len() - 1 - i]);
}

/// Another wire of the tree is tried only where the first path leaves the tree within
/// four tiles of the goal, the other wire stands farther than that, and it arrives more
/// than ten quanta earlier.
pub proof fn another_source_is_early_and_far(
    search: RouteSearch,
    query: RouteQuery<'_>,
    tree: &OrderedSet<WireId>,
    delay_per_tile_ps: u64,
    first: (Vec<WireId>, Vec<PipId>),
    other: crate::net_router::AlternateSource,
)
    requires
        crate::net_growth::is_worth_trying(search, query, tree, delay_per_tile_ps, first, other),
        query.delay_quantum_ps <= 50,
        query.tree_delays_ps@[first.0@.last().0 as int] < u64::MAX,
    ensures
        ({
            let points = query.metadata.wire_points@;
            let goal = points[query.goal.0 as int];
            &&& tree@.contains(other.wire)
            &&& other.wire != first.0@.last()
            &&& crate::refine_laws::tiles_between(points[first.0@.last().0 as int], goal) <= 4
            &&& crate::refine_laws::tiles_between(points[other.wire.0 as int], goal) > 4
            &&& query.tree_delays_ps@[other.wire.0 as int] + 10 * query.delay_quantum_ps
                < query.tree_delays_ps@[first.0@.last().0 as int]
        }),
{
    let points = query.metadata.wire_points@;
    let goal = points[query.goal.0 as int];
    let here = points[other.wire.0 as int];
    assert(0 <= here.distance(goal) <= u64::MAX);
}

} // verus!
