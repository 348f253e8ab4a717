//! What delays, criticalities and prices do to routes.

use std::sync::Arc;

use vstd::prelude::*;

use crate::connection::{setup_answer, timing_corridor};
use crate::cost::{clip_u32, negotiated_price};
use crate::course::{present_weight, price_holds, NegotiationPoint};
use crate::cycles::{order_entry, RoutingOrderEntry};
use crate::model::{CellPinId, Connection, NetId, PipId, WireId};
use crate::net_growth::NetRouter;
use crate::occupancy::{pip_sets, users, wire_sets};
use crate::ordered::{OrderedKey, OrderedSet};
use crate::route::NetRoute;
use crate::routing_costs::RoutingCosts;
use crate::search::{space_of, MetResources, RouteQuery, RouteSearch, SearchSpace};
use crate::stages::is_counted;
use crate::trial::Trial;
use crate::workspace::RoutingWorkspace;

verus! {

/// A query asks by the caller's tables: its criticality is the entry of the sink, or
/// without one that of the net, or without either zero; its delays are rounded to the
/// detailed quantum exactly on the nets that the caller listed, and otherwise to 50 ps.
pub proof fn a_query_asks_by_the_tables(
    router: NetRouter<'_>,
    query: RouteQuery<'_>,
    net: NetId,
    sink: CellPinId,
    goal: WireId,
    arrivals: Seq<u64>,
    costs: &RoutingCosts,
)
    requires
        router.costs == Some(costs),
        router.asks(query, net, sink, goal, arrivals),
    ensures
        query.costs == Some(costs),
        query.goal == goal,
        query.tree_delays_ps@ == arrivals,
        costs.sink_criticalities@.contains_key(Connection { net, sink }) ==> query.criticality
            == costs.sink_criticalities@[Connection { net, sink }],
        !costs.sink_criticalities@.contains_key(Connection { net, sink })
            && costs.net_criticalities@.contains_key(net) ==> query.criticality
            == costs.net_criticalities@[net],
        !costs.sink_criticalities@.contains_key(Connection { net, sink })
            && !costs.net_criticalities@.contains_key(net) ==> query.criticality == 0,
        costs.detailed_timing_nets@.contains(net) ==> query.delay_quantum_ps
            == costs.detailed_delay_quantum_ps,
        !costs.detailed_timing_nets@.contains(net) ==> query.delay_quantum_ps == 50,
        query.wire_congestion == router.wire_congestion,
        query.pip_congestion == router.pip_congestion,
        query.hard_occupancy == router.hard_occupancy,
        query.blocked_pip_words == router.blocked_pip_words,
{
}

/// Whole quanta that a delay begins.
pub open spec fn begun_quanta(delay_ps: int, quantum_ps: int) -> int {
    if delay_ps % quantum_ps == 0 {
        delay_ps / quantum_ps
    } else {
        delay_ps / quantum_ps + 1
    }
}

/// Price of one hop under the default quantum: the quanta that the maximum delay of the
/// PIP begins, or one on an untimed connection and at least, and the prices that the
/// tables give its wire and its PIP.
pub open spec fn hop_price(query: RouteQuery<'_>, pip: PipId, to: WireId) -> int {
    let delay_ps = match query.costs {
        Some(costs) => costs.pip_delays_ps@[pip.0 as int] as int,
        None => 0,
    };
    let quanta = begun_quanta(delay_ps, 50);
    (if query.criticality == 0 || quanta < 1 {
        1
    } else {
        quanta
    }) + query.wire_congestion@[to.0 as int] + query.pip_congestion@[pip.0 as int]
}

/// Price of the first hops of a route, with the arrival of its first wire on a timed
/// connection.
pub open spec fn route_price(
    query: RouteQuery<'_>,
    wires: Seq<WireId>,
    pips: Seq<PipId>,
    hops: int,
) -> int
    decreases hops,
{
    if hops <= 0 {
        if query.criticality == 0 {
            0
        } else {
            begun_quanta(query.tree_delays_ps@[wires[0].0 as int] as int, 50)
        }
    } else {
        route_price(query, wires, pips, hops - 1) + hop_price(query, pips[hops - 1], wires[hops])
    }
}

/// The cost of a walk is its price, up to the largest one.
proof fn lemma_walk_price(
    space: SearchSpace<'_>,
    wires: Seq<WireId>,
    pips: Seq<PipId>,
    hops: int,
)
    requires
        space.query.wf(),
        space.query.has_fixed_costs(),
        space.is_walk(wires, pips),
        0 <= hops <= pips.len(),
    ensures
        space.walk_cost(wires, pips, hops) == clip_u32(
            route_price(space.query, wires, pips, hops),
        ),
        0 <= route_price(space.query, wires, pips, hops),
    decreases hops,
{
    let query = space.query;
    crate::cost::lemma_ceil_div(query.tree_delays_ps@[wires[0].0 as int] as int, 50);
    if hops > 0 {
        lemma_walk_price(space, wires, pips, hops - 1);
        let pip = pips[hops - 1];
        let to = wires[hops];
        crate::cost::lemma_ceil_div(query.pip_delay(pip), 50);
        assert(crate::cost::ceil_div(50, 50) == 1);
        assert(query.congestion(pip, to) * 1 == query.congestion(pip, to));
        assert(query.hop_cost(pip, to) == hop_price(query, pip, to));
    }
}

/// A later part of a route is not free.
proof fn lemma_price_grows(
    query: RouteQuery<'_>,
    wires: Seq<WireId>,
    pips: Seq<PipId>,
    short: int,
    long: int,
)
    requires
        0 <= short <= long <= pips.len(),
    ensures
        route_price(query, wires, pips, short) <= route_price(query, wires, pips, long),
    decreases long,
{
    if short < long {
        lemma_price_grows(query, wires, pips, short, long - 1);
    }
}

/// Under the default quantum the route that a search answers with is no dearer than any
/// other open route of the same space along which the estimate does not exceed the
/// price that is left, by the delays, criticality and prices of the query.
pub proof fn an_answer_is_no_dearer_than_another_route(
    search: RouteSearch,
    space: SearchSpace<'_>,
    wires: Seq<WireId>,
    pips: Seq<PipId>,
    other: Seq<WireId>,
    other_pips: Seq<PipId>,
)
    requires
        space.query.wf(),
        space.query.delay_quantum_ps == 50,
        search.best_walk(space, wires, pips),
        space.is_walk(wires, pips),
        space.is_walk(other, other_pips),
        other.last() == space.query.goal,
        route_price(space.query, other, other_pips, other_pips.len() as int)
            + search.estimate_from(space.query, space.query.goal.0 as int) < u32::MAX,
        0 <= search.estimate_from(space.query, space.query.goal.0 as int),
        forall|i: int|
            0 <= i < other.len() ==> search.estimate_from(
                space.query,
                (#[trigger] other[i]).0 as int,
            ) <= search.estimate_from(space.query, space.query.goal.0 as int) + route_price(
                space.query,
                other,
                other_pips,
                other_pips.len() as int,
            ) - route_price(space.query, other, other_pips, i),
    ensures
        route_price(space.query, wires, pips, pips.len() as int) <= route_price(
            space.query,
            other,
            other_pips,
            other_pips.len() as int,
        ),
{
    let query = space.query;
    let i = choose|i: int|
        0 <= i < other.len() && search.whole_estimate(
            query,
            space.walk_cost(wires, pips, pips.len() as int),
            query.goal.0 as int,
        ) <= search.whole_estimate(
            query,
            #[trigger] space.walk_cost(other, other_pips, i),
            other[i].0 as int,
        );
    lemma_walk_price(space, wires, pips, pips.len() as int);
    lemma_walk_price(space, other, other_pips, i);
    lemma_walk_price(space, other, other_pips, other_pips.len() as int);
    lemma_price_grows(query, other, other_pips, i, other_pips.len() as int);
    assert(other[i] == other[i]);
}

/// The route that a search without a minimum answers with is no dearer than another:
/// on an untimed connection than any on the device, and on a timed one than any within
/// the corridor of the connection.
pub proof fn a_setup_answer_is_no_dearer(
    search: RouteSearch,
    query: RouteQuery<'_>,
    starts: &OrderedSet<WireId>,
    avoid: Option<&OrderedSet<WireId>>,
    path: (Vec<WireId>, Vec<PipId>),
    met: MetResources,
    other: Seq<WireId>,
    other_pips: Seq<PipId>,
)
    requires
        query.wf(),
        query.delay_quantum_ps == 50,
        setup_answer(search, query, starts, avoid, Some(path), met),
        space_of(
            query,
            starts,
            avoid,
            if query.criticality == 0 {
                None
            } else {
                Some(timing_corridor(query, starts@))
            },
        ).is_walk(other, other_pips),
        other.last() == query.goal,
        route_price(query, other, other_pips, other_pips.len() as int) + search.estimate_from(
            query,
            query.goal.0 as int,
        ) < u32::MAX,
        0 <= search.estimate_from(query, query.goal.0 as int),
        forall|i: int|
            0 <= i < other.len() ==> search.estimate_from(query, (#[trigger] other[i]).0 as int)
                <= search.estimate_from(query, query.goal.0 as int) + route_price(
                query,
                other,
                other_pips,
                other_pips.len() as int,
            ) - route_price(query, other, other_pips, i),
    ensures
        route_price(query, path.0@.reverse(), path.1@.reverse(), path.1@.len() as int)
            <= route_price(query, other, other_pips, other_pips.len() as int),
{
    let narrow = space_of(query, starts, avoid, Some(timing_corridor(query, starts@)));
    let whole = space_of(query, starts, avoid, None);
    let wires = path.0@.reverse();
    let pips = path.1@.reverse();
    if query.criticality == 0 {
        an_answer_is_no_dearer_than_another_route(search, whole, wires, pips, other, other_pips);
    } else {
        assert(!crate::connection::unreachable_in(narrow));
        an_answer_is_no_dearer_than_another_route(search, narrow, wires, pips, other, other_pips);
    }
}

/// Where nobody would overuse a resource, one more user pays what its history adds up
/// to; past the capacity every user too many, the new one among them, pays the present
/// weight on top.
pub proof fn a_price_is_history_and_overuse(
    occupancy: int,
    capacity: int,
    history: int,
    present: int,
)
    requires
        0 <= occupancy < u16::MAX,
        0 <= capacity <= u16::MAX,
    ensures
        occupancy < capacity ==> negotiated_price(occupancy, capacity, history, present)
            == history,
        occupancy >= capacity ==> negotiated_price(occupancy, capacity, history, present)
            == history + present + present * (occupancy - capacity),
{
    assert(present * 0 == 0);
    assert(present * (occupancy + 1 - capacity) == present + present * (occupancy - capacity))
        by (nonlinear_arith);
}

/// Present overuse weighs one in the first iteration, and twice as much in every
/// following one up to the thirteenth.
pub proof fn present_overuse_doubles(iteration: int)
    requires
        0 <= iteration,
    ensures
        present_weight(0) == 1,
        iteration < 12 ==> present_weight(iteration + 1) == 2 * present_weight(iteration),
        iteration >= 12 ==> present_weight(iteration) == 4096,
{
    assert(1u32 << 0u32 == 1u32) by (bit_vector);
    assert(1u32 << 12u32 == 4096u32) by (bit_vector);
    if iteration < 12 {
        let i = iteration as u32;
        assert(i < 12 ==> (1u32 << ((i + 1) as u32)) == 2 * (1u32 << i)) by (bit_vector);
    }
}

/// While the negotiation routes a net, a wire that other nets use costs the overuse that
/// it had before and the present weight for every user above its capacity, one more
/// included; so does a PIP.
pub proof fn a_market_prices_by_use(
    trial: Trial<'_>,
    base: RouteSearch,
    point: NegotiationPoint,
    present: int,
    routes: Seq<Option<Arc<NetRoute>>>,
    room: RoutingWorkspace,
    resource: int,
)
    requires
        trial.is_market(base, point, present, routes, room),
    ensures
        0 <= resource < trial.graph.device.wires@.len() && 0 < users(wire_sets(routes), resource)
            < u16::MAX ==> room.wires.congestion@[resource] == point.wire_history[resource] + if users(
            wire_sets(routes),
            resource,
        ) < trial.graph.device.wires@[resource].capacity {
            0
        } else {
            present * (users(wire_sets(routes), resource) + 1
                - trial.graph.device.wires@[resource].capacity)
        },
        0 <= resource < trial.graph.device.pips@.len() && 0 < users(pip_sets(routes), resource)
            < u16::MAX ==> room.pips.congestion@[resource] == point.pip_history[resource] + if users(
            pip_sets(routes),
            resource,
        ) < trial.graph.device.pips@[resource].capacity {
            0
        } else {
            present * (users(pip_sets(routes), resource) + 1
                - trial.graph.device.pips@[resource].capacity)
        },
{
    assert(is_counted(trial.graph.device, routes, room));
    assert(present * 0 == 0);
    if 0 <= resource < trial.graph.device.wires@.len() {
        assert(price_holds(room.wires, present, resource));
        assert(room.wires.occupancy@[resource] == users(wire_sets(routes), resource));
        assert(room.wires.capacities@[resource] == trial.graph.device.wires@[resource].capacity);
    }
    if 0 <= resource < trial.graph.device.pips@.len() {
        assert(price_holds(room.pips, present, resource));
        assert(room.pips.occupancy@[resource] == users(pip_sets(routes), resource));
        assert(room.pips.capacities@[resource] == trial.graph.device.pips@[resource].capacity);
    }
}

/// Criticality of a net by the caller's table; zero without an entry.
pub open spec fn listed_criticality(costs: Option<&RoutingCosts>, net: NetId) -> int {
    if costs matches Some(table) && table.net_criticalities@.contains_key(net) {
        costs->0.net_criticalities@[net] as int
    } else {
        0
    }
}

/// Of two dirty nets, one with an immutable route comes before one without; of two
/// alike, the one with the greater criticality in the caller's table; of two of one
/// criticality, one that has a sink with a minimum route delay; and of two alike, the
/// one with more sinks.
pub proof fn dirty_nets_come_by_the_tables(
    trial: Trial<'_>,
    dirty: Set<Connection>,
    sorted: Seq<RoutingOrderEntry>,
    i: int,
    j: int,
)
    requires
        trial.lists_dirty(dirty, sorted),
        0 <= i < j < sorted.len(),
    ensures
        ({
            let first = NetId(sorted[i].index);
            let second = NetId(sorted[j].index);
            let costs = trial.costs;
            let nets = trial.graph.design.nets@;
            let locked_first = trial.constraints.routes@.contains_key(first);
            let locked_second = trial.constraints.routes@.contains_key(second);
            let hold_first = costs matches Some(table) && exists|sink: CellPinId| #[trigger]
                table.sink_min_delays_ps@.contains_key(Connection { net: first, sink });
            let hold_second = costs matches Some(table) && exists|sink: CellPinId| #[trigger]
                table.sink_min_delays_ps@.contains_key(Connection { net: second, sink });
            &&& locked_second ==> locked_first
            &&& locked_first == locked_second ==> listed_criticality(costs, first)
                >= listed_criticality(costs, second)
            &&& locked_first == locked_second && listed_criticality(costs, first)
                == listed_criticality(costs, second) && hold_second ==> hold_first
            &&& locked_first == locked_second && listed_criticality(costs, first)
                == listed_criticality(costs, second) && hold_first == hold_second
                ==> nets[first.0 as int].sinks@.len() >= nets[second.0 as int].sinks@.len()
        }),
{
    let a = sorted[i];
    let b = sorted[j];
    assert(sorted.contains(a));
    assert(sorted.contains(b));
    assert(a.rank() <= b.rank());
    let ca = listed_criticality(trial.costs, NetId(a.index));
    let cb = listed_criticality(trial.costs, NetId(b.index));
    assert(a == order_entry(trial.graph.design, trial.constraints, trial.costs, a.index as int));
    assert(b == order_entry(trial.graph.design, trial.constraints, trial.costs, b.index as int));
    assert(a.criticality == ca);
    assert(b.criticality == cb);
    let nets = trial.graph.design.nets@;
    assert(nets[a.index as int].sinks.len() == nets[a.index as int].sinks@.len());
    assert(nets[b.index as int].sinks.len() == nets[b.index as int].sinks@.len());
    assert(a.fanout == nets[a.index as int].sinks@.len());
    assert(b.fanout == nets[b.index as int].sinks@.len());
    lemma_order_digits(a, b);
}

/// Entries in order compare by their fields, one after the other.
proof fn lemma_order_digits(a: RoutingOrderEntry, b: RoutingOrderEntry)
    requires
        a.rank() <= b.rank(),
    ensures
        a.unconstrained ==> b.unconstrained,
        a.unconstrained == b.unconstrained ==> a.criticality >= b.criticality,
        a.unconstrained == b.unconstrained && a.criticality == b.criticality
            && b.hold_constrained ==> a.hold_constrained,
        a.unconstrained == b.unconstrained && a.criticality == b.criticality && a.hold_constrained
            == b.hold_constrained ==> a.fanout >= b.fanout,
{
}

/// Criticality of a connection by the caller's tables: the entry of the sink, or
/// without one that of the net, or without either zero.
pub open spec fn connection_criticality(
    costs: Option<&RoutingCosts>,
    net: NetId,
    sink: CellPinId,
) -> int {
    if costs matches Some(table) && table.sink_criticalities@.contains_key(
        Connection { net, sink },
    ) {
        costs->0.sink_criticalities@[Connection { net, sink }] as int
    } else {
        listed_criticality(costs, net)
    }
}

/// Minimum route delay of a connection by the caller's table; zero without an entry.
pub open spec fn listed_minimum(
    costs: Option<&RoutingCosts>,
    net: NetId,
    sink: CellPinId,
) -> int {
    if costs matches Some(table) && table.sink_min_delays_ps@.contains_key(
        Connection { net, sink },
    ) {
        costs->0.sink_min_delays_ps@[Connection { net, sink }] as int
    } else {
        0
    }
}

/// Of two sinks of a net, the more critical one by the caller's tables joins first; of
/// two of one criticality, the one with the greater minimum route delay; and of two
/// alike, the one whose cell stands nearer to the driver.
pub proof fn sinks_join_by_the_tables(
    router: NetRouter<'_>,
    net: NetId,
    order: Seq<CellPinId>,
    i: int,
    j: int,
)
    requires
        router.is_sink_sequence(net, order),
        0 <= i < j < order.len(),
    ensures
        ({
            let first = order[i];
            let second = order[j];
            let costs = router.costs;
            &&& connection_criticality(costs, net, first) >= connection_criticality(
                costs,
                net,
                second,
            )
            &&& connection_criticality(costs, net, first) == connection_criticality(
                costs,
                net,
                second,
            ) ==> listed_minimum(costs, net, first) >= listed_minimum(costs, net, second)
            &&& connection_criticality(costs, net, first) == connection_criticality(
                costs,
                net,
                second,
            ) && listed_minimum(costs, net, first) == listed_minimum(costs, net, second)
                ==> router.sink_distance(net, first) <= router.sink_distance(net, second)
        }),
{
    let distances = choose|distances: Map<CellPinId, u64>| #[trigger]
        router.orders_sinks(net, distances, order);
    let sinks = router.graph.design.nets@[net.0 as int].sinks@;
    let a = crate::ordered::lemma_counterpart(order, sinks, i);
    let b = crate::ordered::lemma_counterpart(order, sinks, j);
    assert(distances[sinks[a]] == router.sink_distance(net, sinks[a]));
    assert(distances[sinks[b]] == router.sink_distance(net, sinks[b]));
    lemma_sink_digits(
        crate::net_router::sink_order(net, router.costs, distances, order[i]),
        crate::net_router::sink_order(net, router.costs, distances, order[j]),
    );
}

/// Sinks in order compare by their fields, one after the other.
proof fn lemma_sink_digits(a: crate::net_router::SinkOrder, b: crate::net_router::SinkOrder)
    requires
        a.rank() <= b.rank(),
    ensures
        a.criticality >= b.criticality,
        a.criticality == b.criticality ==> a.minimum_ps >= b.minimum_ps,
        a.criticality == b.criticality && a.minimum_ps == b.minimum_ps ==> a.distance
            <= b.distance,
{
}

} // verus!
