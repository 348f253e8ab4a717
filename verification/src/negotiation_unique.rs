//! A negotiation has one outcome.

use std::sync::Arc;

use vstd::prelude::*;

use crate::cohort_unique::{
    lemma_same_sets, lemma_same_slot_self, lemma_same_used_pips, same_routing, same_slot,
    same_slots,
};
use crate::conflicts::is_unrouted;
use crate::cost_validation::costs_valid;
use crate::course::{is_grown, NegotiationPoint};
use crate::device::{Device, UnifiedGraph};
use crate::error::PnrError;
use crate::model::{Connection, NetId};
use crate::negotiate::{is_entered, within_capacity, RoutingProgress};
use crate::net_state::serves_net;
use crate::occupancy::{pip_sets, users, wire_sets};
use crate::placement::Placement;
use crate::route::NetRoute;
use crate::route_shape::is_tree;
use crate::routing::{
    first_slots, is_negotiated, routes_serve, routing_outcome, tries, PnrResult,
};
use crate::routing_constraints::RoutingConstraints;
use crate::routing_costs::RoutingCosts;
use crate::search::RouteSearch;
use crate::stage_unique::{lemma_entered_unique, lemma_same_counted, lemma_same_slots_back};
use crate::stages::{is_counted, Stage};
use crate::sweep_unique::{
    lemma_same_point_back, lemma_sequel_unique, lemma_stops_unique, lemma_sweeps_or_stops,
    lemma_sweeps_unique, same_point,
};
use crate::trial::Trial;
use crate::turn_unique::{all_usable, are_kin, same_reason};
use crate::validation::constraints_fit;
use crate::workspace::{countable, filled, RoutingWorkspace};

verus! {

/// Every slot is the same as itself.
proof fn lemma_same_slots_self(routes: Seq<Option<Arc<NetRoute>>>)
    ensures
        same_slots(routes, routes),
{
    assert forall|i: int| 0 <= i < routes.len() implies same_slot(#[trigger] routes[i], routes[i]) by {
        lemma_same_slot_self(routes[i]);
    }
}

/// A negotiation opens at one point.
proof fn lemma_opening_unique(
    a: Trial<'_>,
    b: Trial<'_>,
    routes: Seq<Option<Arc<NetRoute>>>,
    p: NegotiationPoint,
    q: NegotiationPoint,
)
    requires
        are_kin(a, b),
        a.is_opening(routes, p),
        b.is_opening(routes, q),
    ensures
        same_point(p, q),
        p.routes == routes,
{
    lemma_same_slots_self(routes);
    assert forall|c: Connection| p.dirty.contains(c) == q.dirty.contains(c) by {
        assert(is_unrouted(a, routes, c) == is_unrouted(b, routes, c));
    }
    assert(p.dirty =~= q.dirty);
    assert(p.wire_history =~= q.wire_history);
    assert(p.pip_history =~= q.pip_history);
    let device = a.graph.device;
    let x = choose|room: RoutingWorkspace|
        {
            &&& #[trigger] is_counted(device, routes, room)
            &&& is_entered(wire_sets(routes), room.wires, p.wire_owners)
            &&& is_entered(pip_sets(routes), room.pips, p.pip_owners)
        };
    let y = choose|room: RoutingWorkspace|
        {
            &&& #[trigger] is_counted(device, routes, room)
            &&& is_entered(wire_sets(routes), room.wires, q.wire_owners)
            &&& is_entered(pip_sets(routes), room.pips, q.pip_owners)
        };
    lemma_same_counted(device, routes, routes, x, y);
    lemma_entered_unique(wire_sets(routes), (x.wires, y.wires), (p.wire_owners, q.wire_owners));
    lemma_entered_unique(pip_sets(routes), (x.pips, y.pips), (p.pip_owners, q.pip_owners));
}

/// The history grows in one way.
proof fn lemma_grown_unique(
    before: Seq<u32>,
    sets: Seq<Set<int>>,
    capacities: Seq<u16>,
    x: Seq<u32>,
    y: Seq<u32>,
)
    requires
        is_grown(before, sets, capacities, x),
        is_grown(before, sets, capacities, y),
    ensures
        x == y,
{
    assert forall|r: int| 0 <= r < before.len() implies x[r] == y[r] by {}
    assert(x =~= y);
}

/// The same slots are within capacity alike.
proof fn lemma_same_within(
    device: &Device,
    a: Seq<Option<Arc<NetRoute>>>,
    b: Seq<Option<Arc<NetRoute>>>,
)
    requires
        same_slots(a, b),
    ensures
        within_capacity(device, a) == within_capacity(device, b),
{
    lemma_same_sets(a, b);
}

/// One iteration leads to one point.
proof fn lemma_iteration_unique(
    a: Trial<'_>,
    b: Trial<'_>,
    x: RouteSearch,
    y: RouteSearch,
    iteration: int,
    before: (NegotiationPoint, NegotiationPoint),
    after: (NegotiationPoint, NegotiationPoint),
)
    requires
        are_kin(a, b),
        all_usable(a.graph.device),
        x.same_estimates(&y),
        same_point(before.0, before.1),
        before.0.routes.len() == a.net_count(),
        a.is_iteration(x, iteration, before.0, after.0),
        b.is_iteration(y, iteration, before.1, after.1),
    ensures
        same_point(after.0, after.1),
        after.0.routes.len() == a.net_count(),
{
    let (u, events) = choose|last: Stage, events: Seq<RoutingProgress>|
        {
            &&& #[trigger] a.sweeps(x, iteration, before.0, last, events)
            &&& after.0.log == before.0.log + events
            &&& a.is_sequel(before.0.detector, last, after.0)
        };
    let (v, told) = choose|last: Stage, events: Seq<RoutingProgress>|
        {
            &&& #[trigger] b.sweeps(y, iteration, before.1, last, events)
            &&& after.1.log == before.1.log + events
            &&& b.is_sequel(before.1.detector, last, after.1)
        };
    lemma_sweeps_unique(a, b, x, y, iteration, before.0, before.1, (u, v), (events, told));
    lemma_sequel_unique(a, b, (before.0.detector, before.1.detector), (u, v), after);
    lemma_same_sets(after.0.routes, after.1.routes);
    let device = a.graph.device;
    lemma_grown_unique(
        before.0.wire_history,
        wire_sets(after.0.routes),
        Seq::new(device.wires@.len(), |w: int| device.wires@[w].capacity),
        after.0.wire_history,
        after.1.wire_history,
    );
    lemma_grown_unique(
        before.0.pip_history,
        pip_sets(after.0.routes),
        Seq::new(device.pips@.len(), |p: int| device.pips@[p].capacity),
        after.0.pip_history,
        after.1.pip_history,
    );
}

/// A negotiation passes one point after each iteration.
proof fn lemma_course_unique(
    a: Trial<'_>,
    b: Trial<'_>,
    x: RouteSearch,
    y: RouteSearch,
    routes: Seq<Option<Arc<NetRoute>>>,
    p: Seq<NegotiationPoint>,
    q: Seq<NegotiationPoint>,
    count: int,
)
    requires
        are_kin(a, b),
        all_usable(a.graph.device),
        x.same_estimates(&y),
        routes.len() == a.net_count(),
        a.is_course(x, routes, p),
        b.is_course(y, routes, q),
        0 <= count < p.len(),
        count < q.len(),
    ensures
        same_point(p[count], q[count]),
        p[count].routes.len() == a.net_count(),
    decreases count,
{
    if count == 0 {
        lemma_opening_unique(a, b, routes, p[0], q[0]);
    } else {
        lemma_course_unique(a, b, x, y, routes, p, q, count - 1);
        assert(a.is_iteration_at(x, p, count - 1));
        assert(b.is_iteration_at(y, q, count - 1));
        lemma_iteration_unique(
            a,
            b,
            x,
            y,
            count - 1,
            (p[count - 1], q[count - 1]),
            (p[count], q[count]),
        );
    }
}

/// The sweep settles every conflict.
spec fn settles(
    trial: Trial<'_>,
    base: RouteSearch,
    iteration: int,
    point: NegotiationPoint,
    last: Stage,
    events: Seq<RoutingProgress>,
) -> bool {
    &&& trial.sweeps(base, iteration, point, last, events)
    &&& within_capacity(trial.graph.device, last.routes)
}

/// A sweep that settles every conflict is the last one.
proof fn lemma_settles_or_goes_on(
    a: Trial<'_>,
    b: Trial<'_>,
    x: RouteSearch,
    y: RouteSearch,
    iteration: int,
    p: NegotiationPoint,
    q: NegotiationPoint,
    last: Stage,
    events: Seq<RoutingProgress>,
    after: NegotiationPoint,
)
    requires
        are_kin(a, b),
        all_usable(a.graph.device),
        x.same_estimates(&y),
        same_point(p, q),
        p.routes.len() == a.net_count(),
        settles(a, x, iteration, p, last, events),
    ensures
        !b.is_iteration(y, iteration, q, after),
{
    if b.is_iteration(y, iteration, q, after) {
        let (v, told) = choose|last: Stage, events: Seq<RoutingProgress>|
            {
                &&& #[trigger] b.sweeps(y, iteration, q, last, events)
                &&& after.log == q.log + events
                &&& b.is_sequel(q.detector, last, after)
            };
        lemma_sweeps_unique(a, b, x, y, iteration, p, q, (last, v), (events, told));
        assert(after.routes == v.routes);
        lemma_same_within(a.graph.device, last.routes, v.routes);
    }
}

/// A sweep that stops is not followed by another.
proof fn lemma_stops_or_goes_on(
    a: Trial<'_>,
    b: Trial<'_>,
    x: RouteSearch,
    y: RouteSearch,
    iteration: int,
    p: NegotiationPoint,
    q: NegotiationPoint,
    after: NegotiationPoint,
    error: PnrError,
    events: Seq<RoutingProgress>,
)
    requires
        are_kin(a, b),
        all_usable(a.graph.device),
        x.same_estimates(&y),
        same_point(p, q),
        p.routes.len() == a.net_count(),
        a.is_iteration(x, iteration, p, after),
    ensures
        !b.stops(y, iteration, q, error, events),
{
    let (u, told) = choose|last: Stage, events: Seq<RoutingProgress>|
        {
            &&& #[trigger] a.sweeps(x, iteration, p, last, events)
            &&& after.log == p.log + events
            &&& a.is_sequel(p.detector, last, after)
        };
    lemma_sweeps_or_stops(a, b, x, y, iteration, p, q, u, told, error, events);
}

/// How a negotiation ends: with a sweep that settles every conflict, with one that
/// stops, or with none left.
spec fn ends_so(
    trial: Trial<'_>,
    base: RouteSearch,
    points: Seq<NegotiationPoint>,
    log: Seq<RoutingProgress>,
    outcome: Result<Seq<Option<Arc<NetRoute>>>, PnrError>,
) -> bool {
    match outcome {
        Ok(settled) => points.len() <= trial.iteration_limit() && exists|
            last: Stage,
            events: Seq<RoutingProgress>,
        |
            #[trigger] settles(trial, base, points.len() - 1, points.last(), last, events)
                && last.routes == settled && log == points.last().log + events,
        Err(error) => {
            ||| points.len() <= trial.iteration_limit() && exists|events: Seq<RoutingProgress>|
                #[trigger] trial.stops(base, points.len() - 1, points.last(), error, events) && log
                    == points.last().log + events
            ||| points.len() == trial.iteration_limit() + 1 && error is CongestionNotResolved
                && log == points.last().log
        },
    }
}

/// Both negotiations end with the same routes, or fail alike.
pub open spec fn same_end(
    a: Result<Seq<Option<Arc<NetRoute>>>, PnrError>,
    b: Result<Seq<Option<Arc<NetRoute>>>, PnrError>,
) -> bool {
    match (a, b) {
        (Ok(r), Ok(s)) => same_slots(r, s),
        (Err(x), Err(y)) => same_reason(x, y),
        _ => false,
    }
}

/// A negotiation that ended does not go on.
proof fn lemma_ends_or_goes_on(
    a: Trial<'_>,
    b: Trial<'_>,
    x: RouteSearch,
    y: RouteSearch,
    routes: Seq<Option<Arc<NetRoute>>>,
    p: Seq<NegotiationPoint>,
    q: Seq<NegotiationPoint>,
    log: Seq<RoutingProgress>,
    outcome: Result<Seq<Option<Arc<NetRoute>>>, PnrError>,
)
    requires
        are_kin(a, b),
        all_usable(a.graph.device),
        x.same_estimates(&y),
        routes.len() == a.net_count(),
        a.is_course(x, routes, p),
        b.is_course(y, routes, q),
        ends_so(a, x, p, log, outcome),
    ensures
        q.len() <= p.len(),
{
    if p.len() < q.len() {
        let at = p.len() - 1;
        lemma_course_unique(a, b, x, y, routes, p, q, at);
        assert(b.is_iteration_at(y, q, at));
        match outcome {
            Ok(settled) => {
                let (last, events) = choose|last: Stage, events: Seq<RoutingProgress>|
                    #[trigger] settles(a, x, p.len() - 1, p.last(), last, events) && last.routes
                        == settled && log == p.last().log + events;
                lemma_settles_or_goes_on(
                    a,
                    b,
                    x,
                    y,
                    at,
                    p[at],
                    q[at],
                    last,
                    events,
                    q[at + 1],
                );
            },
            Err(error) => {
                if p.len() <= a.iteration_limit() {
                    let events = choose|events: Seq<RoutingProgress>|
                        #[trigger] a.stops(x, p.len() - 1, p.last(), error, events) && log
                            == p.last().log + events;
                    lemma_same_point_back(p[at], q[at]);
                    lemma_stops_or_goes_on(
                        b,
                        a,
                        y,
                        x,
                        at,
                        q[at],
                        p[at],
                        q[at + 1],
                        error,
                        events,
                    );
                }
            },
        }
    }
}

/// A negotiation ends in one way.
proof fn lemma_ends_unique(
    a: Trial<'_>,
    b: Trial<'_>,
    x: RouteSearch,
    y: RouteSearch,
    routes: Seq<Option<Arc<NetRoute>>>,
    p: Seq<NegotiationPoint>,
    q: Seq<NegotiationPoint>,
    log: (Seq<RoutingProgress>, Seq<RoutingProgress>),
    one: Result<Seq<Option<Arc<NetRoute>>>, PnrError>,
    two: Result<Seq<Option<Arc<NetRoute>>>, PnrError>,
)
    requires
        are_kin(a, b),
        all_usable(a.graph.device),
        x.same_estimates(&y),
        routes.len() == a.net_count(),
        a.is_course(x, routes, p),
        b.is_course(y, routes, q),
        ends_so(a, x, p, log.0, one),
        ends_so(b, y, q, log.1, two),
    ensures
        same_end(one, two),
        log.0 == log.1,
{
    lemma_ends_or_goes_on(a, b, x, y, routes, p, q, log.0, one);
    lemma_ends_or_goes_on(b, a, y, x, routes, q, p, log.1, two);
    let at = p.len() - 1;
    lemma_course_unique(a, b, x, y, routes, p, q, at);
    lemma_same_point_back(p[at], q[at]);
    if p.len() <= a.iteration_limit() {
        match (one, two) {
            (Ok(r), Ok(s)) => {
                let (u, events) = choose|last: Stage, events: Seq<RoutingProgress>|
                    #[trigger] settles(a, x, p.len() - 1, p.last(), last, events) && last.routes
                        == r && log.0 == p.last().log + events;
                let (v, told) = choose|last: Stage, events: Seq<RoutingProgress>|
                    #[trigger] settles(b, y, q.len() - 1, q.last(), last, events) && last.routes
                        == s && log.1 == q.last().log + events;
                lemma_sweeps_unique(a, b, x, y, at, p[at], q[at], (u, v), (events, told));
            },
            (Ok(r), Err(error)) => {
                let (u, events) = choose|last: Stage, events: Seq<RoutingProgress>|
                    #[trigger] settles(a, x, p.len() - 1, p.last(), last, events) && last.routes
                        == r && log.0 == p.last().log + events;
                let told = choose|events: Seq<RoutingProgress>|
                    #[trigger] b.stops(y, q.len() - 1, q.last(), error, events) && log.1
                        == q.last().log + events;
                lemma_sweeps_or_stops(a, b, x, y, at, p[at], q[at], u, events, error, told);
            },
            (Err(error), Ok(s)) => {
                let events = choose|events: Seq<RoutingProgress>|
                    #[trigger] a.stops(x, p.len() - 1, p.last(), error, events) && log.0
                        == p.last().log + events;
                let (v, told) = choose|last: Stage, events: Seq<RoutingProgress>|
                    #[trigger] settles(b, y, q.len() - 1, q.last(), last, events) && last.routes
                        == s && log.1 == q.last().log + events;
                lemma_sweeps_or_stops(b, a, y, x, at, q[at], p[at], v, told, error, events);
            },
            (Err(e), Err(f)) => {
                let events = choose|events: Seq<RoutingProgress>|
                    #[trigger] a.stops(x, p.len() - 1, p.last(), e, events) && log.0
                        == p.last().log + events;
                let told = choose|events: Seq<RoutingProgress>|
                    #[trigger] b.stops(y, q.len() - 1, q.last(), f, events) && log.1
                        == q.last().log + events;
                lemma_stops_unique(a, b, x, y, at, p[at], q[at], (e, f), (events, told));
            },
        }
    }
}

/// What a negotiation from the routes on comes to.
pub open spec fn comes_to(
    trial: Trial<'_>,
    base: RouteSearch,
    routes: Seq<Option<Arc<NetRoute>>>,
    log: Seq<RoutingProgress>,
    outcome: Result<Seq<Option<Arc<NetRoute>>>, PnrError>,
) -> bool {
    match outcome {
        Ok(settled) => trial.negotiates(base, routes, settled, log),
        Err(error) => trial.gives_up(base, routes, error, log),
    }
}

/// The routes to begin with can be counted.
spec fn begins_countable(trial: Trial<'_>, routes: Seq<Option<Arc<NetRoute>>>) -> bool {
    countable(
        routes,
        trial.graph.device.wires@.len() as int,
        trial.graph.device.pips@.len() as int,
    )
}

/// Routes that a course begins with can be counted.
proof fn lemma_course_countable(
    trial: Trial<'_>,
    base: RouteSearch,
    routes: Seq<Option<Arc<NetRoute>>>,
    points: Seq<NegotiationPoint>,
)
    requires
        trial.is_course(base, routes, points),
    ensures
        begins_countable(trial, routes),
{
    let device = trial.graph.device;
    let room = choose|room: RoutingWorkspace| #[trigger] is_counted(device, routes, room);
    assert forall|r: int| 0 <= r < device.wires@.len() implies #[trigger] users(
        wire_sets(routes),
        r,
    ) <= u16::MAX by {
        assert(room.wires.occupancy@[r] == users(wire_sets(routes), r));
    }
    assert forall|r: int| 0 <= r < device.pips@.len() implies #[trigger] users(
        pip_sets(routes),
        r,
    ) <= u16::MAX by {
        assert(room.pips.occupancy@[r] == users(pip_sets(routes), r));
    }
}

/// A negotiation that comes to something has a course that ends so, unless its
/// first routes cannot be counted.
proof fn lemma_comes_to(
    trial: Trial<'_>,
    base: RouteSearch,
    routes: Seq<Option<Arc<NetRoute>>>,
    log: Seq<RoutingProgress>,
    outcome: Result<Seq<Option<Arc<NetRoute>>>, PnrError>,
) -> (points: Seq<NegotiationPoint>)
    requires
        comes_to(trial, base, routes, log, outcome),
    ensures
        begins_countable(trial, routes) ==> trial.is_course(base, routes, points) && ends_so(
            trial,
            base,
            points,
            log,
            outcome,
        ),
        !begins_countable(trial, routes) ==> log == Seq::<RoutingProgress>::empty() && (
        outcome matches Err(error) && error is CongestionNotResolved),
{
    match outcome {
        Ok(settled) => {
            let (points, last, events) = choose|
                points: Seq<NegotiationPoint>,
                last: Stage,
                events: Seq<RoutingProgress>,
            |
                {
                    &&& #[trigger] trial.is_course(base, routes, points)
                    &&& points.len() <= trial.iteration_limit()
                    &&& #[trigger] trial.sweeps(
                        base,
                        points.len() - 1,
                        points.last(),
                        last,
                        events,
                    )
                    &&& last.routes == settled
                    &&& log == points.last().log + events
                    &&& within_capacity(trial.graph.device, settled)
                };
            lemma_course_countable(trial, base, routes, points);
            assert(settles(trial, base, points.len() - 1, points.last(), last, events));
            points
        },
        Err(error) => {
            if trial.runs_out(base, routes, error, log) {
                if exists|points: Seq<NegotiationPoint>|
                    {
                        &&& #[trigger] trial.is_course(base, routes, points)
                        &&& points.len() == trial.iteration_limit() + 1
                        &&& log == points.last().log
                    } {
                    let points = choose|points: Seq<NegotiationPoint>|
                        {
                            &&& #[trigger] trial.is_course(base, routes, points)
                            &&& points.len() == trial.iteration_limit() + 1
                            &&& log == points.last().log
                        };
                    lemma_course_countable(trial, base, routes, points);
                    points
                } else {
                    Seq::empty()
                }
            } else {
                let (points, events) = choose|
                    points: Seq<NegotiationPoint>,
                    events: Seq<RoutingProgress>,
                |
                    {
                        &&& #[trigger] trial.is_course(base, routes, points)
                        &&& points.len() <= trial.iteration_limit()
                        &&& #[trigger] trial.stops(
                            base,
                            points.len() - 1,
                            points.last(),
                            error,
                            events,
                        )
                        &&& log == points.last().log + events
                    };
                lemma_course_countable(trial, base, routes, points);
                points
            }
        },
    }
}

/// A negotiation of one placed design from the same routes comes to one outcome and
/// tells one sequence of events, whatever the workspaces that it runs in held
/// before: the routes are the same, or the reason for the failure is. Every wire and
/// PIP is to carry some net, as one that carries none has a price only once it was
/// touched.
pub proof fn a_negotiation_has_one_outcome(
    a: Trial<'_>,
    b: Trial<'_>,
    reused: RoutingWorkspace,
    fresh: RoutingWorkspace,
    routes: Seq<Option<Arc<NetRoute>>>,
    log: (Seq<RoutingProgress>, Seq<RoutingProgress>),
    one: Result<Seq<Option<Arc<NetRoute>>>, PnrError>,
    two: Result<Seq<Option<Arc<NetRoute>>>, PnrError>,
)
    requires
        are_kin(a, b),
        all_usable(a.graph.device),
        reused.is_ready(),
        fresh.is_ready(),
        routes.len() == a.net_count(),
        comes_to(a, reused.search, routes, log.0, one),
        comes_to(b, fresh.search, routes, log.1, two),
    ensures
        same_end(one, two),
        log.0 == log.1,
{
    lemma_comes_to_unique(a, b, reused.search, fresh.search, routes, log, one, two);
}

/// A negotiation comes to one outcome.
proof fn lemma_comes_to_unique(
    a: Trial<'_>,
    b: Trial<'_>,
    x: RouteSearch,
    y: RouteSearch,
    routes: Seq<Option<Arc<NetRoute>>>,
    log: (Seq<RoutingProgress>, Seq<RoutingProgress>),
    one: Result<Seq<Option<Arc<NetRoute>>>, PnrError>,
    two: Result<Seq<Option<Arc<NetRoute>>>, PnrError>,
)
    requires
        are_kin(a, b),
        all_usable(a.graph.device),
        x.same_estimates(&y),
        routes.len() == a.net_count(),
        comes_to(a, x, routes, log.0, one),
        comes_to(b, y, routes, log.1, two),
    ensures
        same_end(one, two),
        log.0 == log.1,
{
    let p = lemma_comes_to(a, x, routes, log.0, one);
    let q = lemma_comes_to(b, y, routes, log.1, two);
    if begins_countable(a, routes) {
        lemma_ends_unique(a, b, x, y, routes, p, q, log, one, two);
    }
}

/// Both results hold the same routes of the same placement, or are refused; what
/// is refused by the routing itself is so for the same reason.
pub open spec fn same_result(
    accepted: bool,
    a: Result<PnrResult, PnrError>,
    b: Result<PnrResult, PnrError>,
) -> bool {
    match (a, b) {
        (Ok(x), Ok(y)) => same_routing(x, y),
        (Err(x), Err(y)) => accepted ==> same_reason(x, y) || (x is RouteIsNotTree
            && y is RouteIsNotTree),
        _ => false,
    }
}

/// The inputs of the routing are accepted.
pub open spec fn inputs_accepted(
    graph: UnifiedGraph<'_>,
    placement: Placement,
    constraints: &RoutingConstraints,
    costs: Option<&RoutingCosts>,
) -> bool {
    &&& constraints_fit(graph, &placement, constraints)
    &&& costs matches Some(costs) ==> costs_valid(graph, costs)
}

/// Routes that hold the same arcs are trees alike.
proof fn lemma_same_tree(x: Arc<NetRoute>, y: Arc<NetRoute>)
    requires
        same_slot(Some(x), Some(y)),
        x.is_fresh(),
        y.is_fresh(),
    ensures
        is_tree(*x) == is_tree(*y),
{
    x.wire_refs.lemma_size();
    x.pip_refs.lemma_size();
    y.wire_refs.lemma_size();
    y.pip_refs.lemma_size();
}

/// The routes that a result comes from: those of the result, or those among which
/// one is no tree.
spec fn is_origin(
    graph: UnifiedGraph<'_>,
    placement: Placement,
    constraints: &RoutingConstraints,
    result: Result<PnrResult, PnrError>,
    outcome: Result<Seq<Option<Arc<NetRoute>>>, PnrError>,
) -> bool {
    match result {
        Ok(routed) => outcome == Ok::<Seq<Option<Arc<NetRoute>>>, PnrError>(
            filled(routed.routes@),
        ),
        Err(PnrError::RouteIsNotTree { net, .. }) => exists|routes: Seq<Arc<NetRoute>>|
            {
                &&& outcome == Ok::<Seq<Option<Arc<NetRoute>>>, PnrError>(
                    #[trigger] filled(routes),
                )
                &&& net.0 < graph.design.nets@.len()
                &&& serves_net(graph, &placement, constraints, net, *routes[net.0 as int])
                &&& !is_tree(*routes[net.0 as int])
            },
        Err(error) => outcome == Err::<Seq<Option<Arc<NetRoute>>>, PnrError>(error),
    }
}

/// A result of accepted inputs comes from a negotiation.
proof fn lemma_origin<'a>(
    graph: UnifiedGraph<'a>,
    placement: Placement,
    constraints: &'a RoutingConstraints,
    costs: Option<&'a RoutingCosts>,
    log: Seq<RoutingProgress>,
    result: Result<PnrResult, PnrError>,
) -> (origin: (Trial<'a>, RouteSearch, Result<Seq<Option<Arc<NetRoute>>>, PnrError>))
    requires
        inputs_accepted(graph, placement, constraints, costs),
        routing_outcome(graph, placement, constraints, costs, log, result),
    ensures
        tries(origin.0, graph, &placement, constraints, costs),
        origin.1.has_standard_estimates(),
        comes_to(origin.0, origin.1, first_slots(graph.design, constraints), log, origin.2),
        is_origin(graph, placement, constraints, result, origin.2),
{
    let routes = first_slots(graph.design, constraints);
    match result {
        Ok(routed) => {
            let (trial, base) = choose|trial: Trial<'_>, base: RouteSearch|
                #[trigger] tries(trial, graph, &placement, constraints, costs)
                    && base.has_standard_estimates() && #[trigger] trial.negotiates(
                    base,
                    routes,
                    filled(routed.routes@),
                    log,
                );
            (trial, base, Ok(filled(routed.routes@)))
        },
        Err(error) => {
            if let PnrError::RouteIsNotTree { net, wires, pips } = error {
                let found = choose|routes: Seq<Arc<NetRoute>>|
                    {
                        let route = *routes[net.0 as int];
                        &&& net.0 < graph.design.nets@.len()
                        &&& #[trigger] is_negotiated(
                            graph,
                            &placement,
                            constraints,
                            costs,
                            log,
                            routes,
                        )
                        &&& serves_net(graph, &placement, constraints, net, route)
                        &&& !is_tree(route)
                    };
                let (trial, base) = choose|trial: Trial<'_>, base: RouteSearch|
                    #[trigger] tries(trial, graph, &placement, constraints, costs)
                        && base.has_standard_estimates() && #[trigger] trial.negotiates(
                        base,
                        routes,
                        filled(found),
                        log,
                    );
                (trial, base, Ok(filled(found)))
            } else {
                let (trial, base) = choose|trial: Trial<'_>, base: RouteSearch|
                    #[trigger] tries(trial, graph, &placement, constraints, costs)
                        && trial.failed(error) && base.has_standard_estimates()
                        && #[trigger] trial.gives_up(base, routes, error, log);
                (trial, base, Err(error))
            }
        },
    }
}

/// Routes that serve every net by a tree are not the same as some of which one is no tree.
proof fn lemma_tree_or_not(
    graph: UnifiedGraph<'_>,
    placement: Placement,
    constraints: &RoutingConstraints,
    routed: PnrResult,
    error: PnrError,
    outcome: Result<Seq<Option<Arc<NetRoute>>>, PnrError>,
)
    requires
        routes_serve(graph, &placement, constraints, routed.routes@),
        is_origin(graph, placement, constraints, Err(error), outcome),
        outcome matches Ok(settled) && same_slots(filled(routed.routes@), settled),
    ensures
        !(error is RouteIsNotTree),
{
    if let PnrError::RouteIsNotTree { net, wires, pips } = error {
        let found = choose|routes: Seq<Arc<NetRoute>>|
            {
                &&& outcome == Ok::<Seq<Option<Arc<NetRoute>>>, PnrError>(
                    #[trigger] filled(routes),
                )
                &&& net.0 < graph.design.nets@.len()
                &&& serves_net(graph, &placement, constraints, net, *routes[net.0 as int])
                &&& !is_tree(*routes[net.0 as int])
            };
        let n = net.0 as int;
        let x = routed.routes@[n];
        let y = found[n];
        assert(filled(routed.routes@)[n] == Some(x));
        assert(filled(found)[n] == Some(y));
        assert(same_slot(filled(routed.routes@)[n], filled(found)[n]));
        assert(serves_net(graph, &placement, constraints, NetId(n as usize), *x));
        lemma_same_tree(x, y);
    }
}

/// Routing one placed design under the same constraints and costs, in a fresh
/// workspace or in one that is used again, gives one result: the same routes of the
/// same placement with the same number of PIPs, or a refusal for the same reason, and
/// the same sequence of events. Every wire and PIP is to carry some net, as one that
/// carries none has a price only once it was touched.
pub proof fn routing_gives_one_result(
    graph: UnifiedGraph<'_>,
    placement: Placement,
    constraints: &RoutingConstraints,
    costs: Option<&RoutingCosts>,
    log: (Seq<RoutingProgress>, Seq<RoutingProgress>),
    one: Result<PnrResult, PnrError>,
    two: Result<PnrResult, PnrError>,
)
    requires
        all_usable(graph.device),
        routing_outcome(graph, placement, constraints, costs, log.0, one),
        routing_outcome(graph, placement, constraints, costs, log.1, two),
    ensures
        same_result(inputs_accepted(graph, placement, constraints, costs), one, two),
        log.0 == log.1,
{
    if !inputs_accepted(graph, placement, constraints, costs) {
        assert(log.0 =~= log.1);
    } else {
        let x = lemma_origin(graph, placement, constraints, costs, log.0, one);
        let y = lemma_origin(graph, placement, constraints, costs, log.1, two);
        lemma_comes_to_unique(
            x.0,
            y.0,
            x.1,
            y.1,
            first_slots(graph.design, constraints),
            log,
            x.2,
            y.2,
        );
        match (one, two) {
            (Ok(a), Ok(b)) => {
                lemma_same_used_pips(a.routes@, b.routes@);
            },
            (Ok(a), Err(error)) => {
                lemma_tree_or_not(graph, placement, constraints, a, error, y.2);
            },
            (Err(error), Ok(b)) => {
                if x.2 is Ok {
                    lemma_same_slots_back(x.2->Ok_0, y.2->Ok_0);
                    lemma_tree_or_not(graph, placement, constraints, b, error, x.2);
                }
            },
            (Err(e), Err(f)) => {},
        }
    }
}

} // verus!
