//! What polishing asks for, and that it never makes a connection dearer.

use std::sync::Arc;

use vstd::prelude::*;

use crate::hold_laws::delay_sum;
use crate::model::{Connection, PipId};
use crate::ordered::OrderedKey;
use crate::polish::PolishPoint;
use crate::polish_attempt::PolishEvent;
use crate::polish_queue::{first_arc_at, unloaded_delay, Polisher};
use crate::route::NetRoute;
use crate::routing_costs::RoutingCosts;
use crate::timing_laws::{begun_quanta, connection_criticality};
use crate::workspace::RoutingWorkspace;

verus! {

/// Quantum by which the delays of a net are rounded: the detailed one on the nets that
/// the caller listed, and otherwise 50 ps.
pub open spec fn asked_quantum(costs: &RoutingCosts, connection: Connection) -> int {
    if costs.detailed_timing_nets@.contains(connection.net) {
        costs.detailed_delay_quantum_ps as int
    } else {
        50
    }
}

/// Price of an arc of the connection on an empty device: the quanta that the maximum
/// delays of its PIPs begin together, and for every PIP the share of one default quantum
/// by which the connection is less than fully critical.
pub open spec fn arc_price(costs: &RoutingCosts, connection: Connection, pips: Seq<PipId>) -> int {
    let quantum = asked_quantum(costs, connection);
    let criticality = connection_criticality(Some(costs), connection.net, connection.sink);
    begun_quanta(delay_sum(costs.pip_delays_ps@, pips), quantum) + begun_quanta(
        (64 - criticality) * 50,
        64 * quantum,
    ) * pips.len()
}

/// The connection is routed, its criticality in the caller's tables is above one, and no
/// immutable route reaches its sink.
pub open spec fn is_asked(
    polisher: Polisher<'_>,
    routes: Seq<Option<Arc<NetRoute>>>,
    connection: Connection,
) -> bool {
    &&& connection.net.0 < routes.len()
    &&& routes[connection.net.0 as int] is Some
    &&& exists|k: int|
        0 <= k < (routes[connection.net.0 as int]->0).arcs@.len() && (
        #[trigger] (routes[connection.net.0 as int]->0).arcs@[k]).sink == Some(connection.sink)
    &&& connection_criticality(Some(polisher.costs), connection.net, connection.sink) > 1
    &&& polisher.constraints.routes@.contains_key(connection.net) ==> forall|k: int|
        0 <= k < polisher.constraints.routes@[connection.net].arcs@.len() ==> (
        #[trigger] polisher.constraints.routes@[connection.net].arcs@[k]).sink != Some(
            connection.sink,
        )
}

/// Polishing asks for exactly the routed and movable connections whose criticality in
/// the caller's tables is above one.
pub proof fn polishing_asks_for_the_critical(
    polisher: Polisher<'_>,
    routes: Seq<Option<Arc<NetRoute>>>,
    connection: Connection,
)
    ensures
        polisher.asked(routes).contains(connection) == is_asked(polisher, routes, connection),
{
}

/// A sum that stays in range is the clipped one.
proof fn lemma_unloaded_delay(costs: &RoutingCosts, pips: Seq<PipId>)
    requires
        delay_sum(costs.pip_delays_ps@, pips) <= u64::MAX,
    ensures
        unloaded_delay(costs, pips) == delay_sum(costs.pip_delays_ps@, pips),
        delay_sum(costs.pip_delays_ps@, pips) >= 0,
    decreases pips.len(),
{
    if pips.len() > 0 {
        lemma_unloaded_delay(costs, pips.drop_last());
    }
}

/// An arc costs its price.
proof fn lemma_arc_price(
    polisher: Polisher<'_>,
    connection: Connection,
    route: NetRoute,
    at: int,
)
    requires
        polisher.wf(),
        first_arc_at(route, connection.sink, at),
        delay_sum(polisher.costs.pip_delays_ps@, route.arcs@[at].pips@) <= u64::MAX,
        arc_price(polisher.costs, connection, route.arcs@[at].pips@) <= u64::MAX,
        connection_criticality(Some(polisher.costs), connection.net, connection.sink) > 0,
    ensures
        polisher.realized(connection, route) == arc_price(
            polisher.costs,
            connection,
            route.arcs@[at].pips@,
        ),
{
    let costs = polisher.costs;
    let pips = route.arcs@[at].pips@;
    let other = choose|at: int| first_arc_at(route, connection.sink, at);
    assert(first_arc_at(route, connection.sink, other));
    assert(other == at) by {
        if other < at {
            assert(route.arcs@[other].sink != Some(connection.sink));
        }
        if at < other {
            assert(route.arcs@[at].sink != Some(connection.sink));
        }
    }
    polisher.lemma_criticality(connection);
    lemma_unloaded_delay(costs, pips);
    let quantum = asked_quantum(costs, connection);
    let criticality = connection_criticality(Some(costs), connection.net, connection.sink);
    assert(quantum > 0);
    crate::cost::lemma_ceil_div(delay_sum(costs.pip_delays_ps@, pips), quantum);
    crate::cost::lemma_ceil_div((64 - criticality) * 50, 64 * quantum);
    let bias = begun_quanta((64 - criticality) * 50, 64 * quantum);
    assert(bias == crate::cost::hop_bias(criticality, quantum));
    assert(bias * pips.len() >= 0) by (nonlinear_arith)
        requires
            bias >= 0,
            pips.len() >= 0,
    ;
}

/// No connection that polishing asks for comes out dearer than it went in, by the
/// maximum delays, criticalities and quanta that the caller gave.
pub proof fn polishing_never_makes_an_arc_dearer(
    polisher: Polisher<'_>,
    before: Seq<Option<Arc<NetRoute>>>,
    after: Seq<Option<Arc<NetRoute>>>,
    connection: Connection,
    at: int,
    later: int,
)
    requires
        polisher.wf(),
        polisher.never_costlier(before, after),
        is_asked(polisher, before, connection),
        first_arc_at(*(before[connection.net.0 as int]->0), connection.sink, at),
        after[connection.net.0 as int] is Some,
        first_arc_at(*(after[connection.net.0 as int]->0), connection.sink, later),
        delay_sum(
            polisher.costs.pip_delays_ps@,
            (before[connection.net.0 as int]->0).arcs@[at].pips@,
        ) <= u64::MAX,
        arc_price(
            polisher.costs,
            connection,
            (before[connection.net.0 as int]->0).arcs@[at].pips@,
        ) <= u64::MAX,
        delay_sum(
            polisher.costs.pip_delays_ps@,
            (after[connection.net.0 as int]->0).arcs@[later].pips@,
        ) <= u64::MAX,
        arc_price(
            polisher.costs,
            connection,
            (after[connection.net.0 as int]->0).arcs@[later].pips@,
        ) <= u64::MAX,
    ensures
        arc_price(
            polisher.costs,
            connection,
            (after[connection.net.0 as int]->0).arcs@[later].pips@,
        ) <= arc_price(
            polisher.costs,
            connection,
            (before[connection.net.0 as int]->0).arcs@[at].pips@,
        ),
{
    polishing_asks_for_the_critical(polisher, before, connection);
    assert(polisher.may_improve(connection, before));
    let x = before[connection.net.0 as int]->0;
    let y = after[connection.net.0 as int]->0;
    lemma_arc_price(polisher, connection, crate::stage_unique::shared_route(x), at);
    lemma_arc_price(polisher, connection, crate::stage_unique::shared_route(y), later);
    lemma_price_range(polisher.costs, connection, x.arcs@[at].pips@);
    lemma_price_range(polisher.costs, connection, y.arcs@[later].pips@);
    polisher.lemma_criticality(connection);
}

/// Prices are not negative.
proof fn lemma_price_range(costs: &RoutingCosts, connection: Connection, pips: Seq<PipId>)
    requires
        asked_quantum(costs, connection) > 0,
        connection_criticality(Some(costs), connection.net, connection.sink) <= 64,
        delay_sum(costs.pip_delays_ps@, pips) <= u64::MAX,
    ensures
        arc_price(costs, connection, pips) >= 0,
{
    let quantum = asked_quantum(costs, connection);
    let criticality = connection_criticality(Some(costs), connection.net, connection.sink);
    lemma_unloaded_delay(costs, pips);
    crate::cost::lemma_ceil_div(delay_sum(costs.pip_delays_ps@, pips), quantum);
    crate::cost::lemma_ceil_div((64 - criticality) * 50, 64 * quantum);
    let bias = begun_quanta((64 - criticality) * 50, 64 * quantum);
    assert(bias * pips.len() >= 0) by (nonlinear_arith)
        requires
            bias >= 0,
            pips.len() >= 0,
    ;
}

/// The arc is that of the connection, at a price that is in range.
pub open spec fn is_priced_arc(
    polisher: Polisher<'_>,
    routes: Seq<Option<Arc<NetRoute>>>,
    connection: Connection,
    at: int,
) -> bool {
    let route = routes[connection.net.0 as int]->0;
    &&& routes[connection.net.0 as int] is Some
    &&& first_arc_at(*route, connection.sink, at)
    &&& delay_sum(polisher.costs.pip_delays_ps@, route.arcs@[at].pips@) <= u64::MAX
    &&& arc_price(polisher.costs, connection, route.arcs@[at].pips@) <= u64::MAX
    &&& connection_criticality(Some(polisher.costs), connection.net, connection.sink) > 0
}

/// Of the connections with a turn to come, none has a dearer arc than the one whose turn
/// it is, and none of the same price is more critical by the caller's tables.
pub proof fn the_dearest_has_its_turn(
    polisher: Polisher<'_>,
    base: RoutingWorkspace,
    asked: Set<Connection>,
    before: PolishPoint,
    event: PolishEvent,
    after: PolishPoint,
    at: int,
    other: Connection,
    there: int,
)
    requires
        polisher.wf(),
        polisher.is_step(base, asked, before, event, after),
        before.pending.contains(other),
        is_priced_arc(polisher, before.routes, event.connection, at),
        is_priced_arc(polisher, before.routes, other, there),
    ensures
        ({
            let mine = arc_price(
                polisher.costs,
                event.connection,
                (before.routes[event.connection.net.0 as int]->0).arcs@[at].pips@,
            );
            let theirs = arc_price(
                polisher.costs,
                other,
                (before.routes[other.net.0 as int]->0).arcs@[there].pips@,
            );
            &&& mine >= theirs
            &&& mine == theirs ==> connection_criticality(
                Some(polisher.costs),
                event.connection.net,
                event.connection.sink,
            ) >= connection_criticality(Some(polisher.costs), other.net, other.sink)
        }),
{
    let a = polisher.ranked(event.connection, before.routes);
    let b = polisher.ranked(other, before.routes);
    assert(a.rank() <= b.rank());
    let x = before.routes[event.connection.net.0 as int]->0;
    let y = before.routes[other.net.0 as int]->0;
    lemma_arc_price(polisher, event.connection, crate::stage_unique::shared_route(x), at);
    lemma_arc_price(polisher, other, crate::stage_unique::shared_route(y), there);
    polisher.lemma_criticality(event.connection);
    polisher.lemma_criticality(other);
    lemma_price_range(polisher.costs, event.connection, x.arcs@[at].pips@);
    lemma_price_range(polisher.costs, other, y.arcs@[there].pips@);
    lemma_candidate_digits(a, b);
}

/// Candidates in order compare by their costs, and then by their criticality.
proof fn lemma_candidate_digits(
    a: crate::polish_queue::LegalRoutePolishCandidate,
    b: crate::polish_queue::LegalRoutePolishCandidate,
)
    requires
        a.rank() <= b.rank(),
    ensures
        a.realized_cost >= b.realized_cost,
        a.realized_cost == b.realized_cost ==> a.criticality >= b.criticality,
{
}

} // verus!
