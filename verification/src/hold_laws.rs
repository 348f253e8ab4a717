//! What a minimum route delay asks of a route.

use vstd::prelude::*;

use crate::connection::hold_answer;
use crate::cost::HOLD_DELAY_QUANTUM_PS;
use crate::growth_model::GrowthPoint;
use crate::hold::{hold_problem, HoldProblem, HoldQueueEntry, HoldRouteState, HoldRouteVisit};
use crate::hold_course::{traces, HoldPoint};
use crate::model::{CellPinId, Connection, NetId, PipId, WireId};
use crate::net_growth::NetRouter;
use crate::ordered::OrderedSet;
use crate::routing_costs::RoutingCosts;
use crate::search::{MetResources, RouteQuery, RouteSearch};

verus! {

/// Sum of the delays that a table gives some PIPs.
pub open spec fn delay_sum(table: Seq<u32>, pips: Seq<PipId>) -> int
    decreases pips.len(),
{
    if pips.len() == 0 {
        0
    } else {
        delay_sum(table, pips.drop_last()) + table[pips.last().0 as int]
    }
}

/// The first PIP counts as any other.
pub proof fn lemma_delay_sum_first(table: Seq<u32>, pips: Seq<PipId>)
    requires
        pips.len() > 0,
    ensures
        delay_sum(table, pips) == table[pips[0].0 as int] + delay_sum(table, pips.skip(1)),
    decreases pips.len(),
{
    if pips.len() > 1 {
        lemma_delay_sum_first(table, pips.drop_last());
        assert(pips.drop_last().skip(1) =~= pips.skip(1).drop_last());
        assert(pips.skip(1).last() == pips.last());
    } else {
        assert(pips.skip(1) =~= Seq::empty());
        assert(pips.drop_last() =~= Seq::empty());
    }
}

/// The order of the PIPs does not matter.
pub proof fn lemma_delay_sum_reversed(table: Seq<u32>, pips: Seq<PipId>)
    ensures
        delay_sum(table, pips.reverse()) == delay_sum(table, pips),
    decreases pips.len(),
{
    if pips.len() > 0 {
        lemma_delay_sum_reversed(table, pips.skip(1));
        lemma_delay_sum_first(table, pips);
        assert(pips.reverse().drop_last() =~= pips.skip(1).reverse());
        assert(pips.reverse().last() == pips[0]);
    } else {
        assert(pips.reverse() =~= pips);
    }
}

/// The arrival of a walk is at most what the table of minimum delays adds up to.
proof fn lemma_walk_arrival(
    problem: HoldProblem<'_>,
    wires: Seq<WireId>,
    pips: Seq<PipId>,
    index: int,
)
    requires
        0 <= index <= pips.len(),
    ensures
        problem.walk_arrival(wires, pips, index)
            <= problem.space.query.tree_delays_ps@[wires[0].0 as int] + delay_sum(
            problem.costs.pip_min_delays_ps@,
            pips.take(index),
        ),
    decreases index,
{
    if index > 0 {
        lemma_walk_arrival(problem, wires, pips, index - 1);
        assert(pips.take(index).drop_last() =~= pips.take(index - 1));
        assert(pips.take(index).last() == pips[index - 1]);
    }
}

/// Where the occupancy is hard, the path that a hold search gives arrives no earlier
/// than asked: the arrival of the tree wire that it leaves from, and the minimum
/// delays of its PIPs, add up to the minimum at least.
pub proof fn a_hold_path_keeps_the_minimum(
    query: RouteQuery<'_>,
    starts: &OrderedSet<WireId>,
    minimum_arrival_ps: u64,
    path: (Vec<WireId>, Vec<PipId>),
    met: MetResources,
    costs: &RoutingCosts,
)
    requires
        query.costs == Some(costs),
        query.hard_occupancy is Some,
        hold_answer(query, starts, minimum_arrival_ps, Some(path), met),
    ensures
        query.tree_delays_ps@[path.0@.last().0 as int] + delay_sum(
            costs.pip_min_delays_ps@,
            path.1@,
        ) >= minimum_arrival_ps,
{
    let problem = hold_problem(query, starts, costs, minimum_arrival_ps);
    let wires = path.0@.reverse();
    let pips = path.1@.reverse();
    lemma_walk_arrival(problem, wires, pips, pips.len() as int);
    assert(pips.take(pips.len() as int) =~= pips);
    lemma_delay_sum_reversed(costs.pip_min_delays_ps@, path.1@);
}

/// The label of a state says how the state was entered: by a tree wire, or from a
/// state with some arrival of that state's bucket.
spec fn is_entered(
    problem: HoldProblem<'_>,
    visits: Map<HoldRouteState, HoldRouteVisit>,
    state: HoldRouteState,
) -> bool {
    let visit = visits[state];
    &&& state == problem.state(state.wire, visit.arrival_ps as int)
    &&& visit.previous is None ==> visit.arrival_ps
        == problem.space.query.tree_delays_ps@[state.wire.0 as int]
    &&& visit.previous is Some ==> visits.contains_key((visit.previous->0).0) && is_led(
        problem,
        visit.previous->0,
        visit.arrival_ps,
    )
}

/// The PIP leads from some arrival of the state to the later one.
spec fn is_led(problem: HoldProblem<'_>, link: (HoldRouteState, PipId), later_ps: u64) -> bool {
    exists|arrival_ps: u64| #[trigger] leads_in(problem, link, arrival_ps, later_ps)
}

/// The PIP leads from an arrival of the state to the later one.
spec fn leads_in(
    problem: HoldProblem<'_>,
    link: (HoldRouteState, PipId),
    arrival_ps: u64,
    later_ps: u64,
) -> bool {
    &&& later_ps == problem.arrive(arrival_ps as int, link.1)
    &&& link.0 == problem.state(link.0.wire, arrival_ps as int)
}

/// Every label says how its state was entered.
spec fn all_entered(
    problem: HoldProblem<'_>,
    visits: Map<HoldRouteState, HoldRouteVisit>,
) -> bool {
    forall|s: HoldRouteState| #[trigger]
        visits.contains_key(s) ==> is_entered(problem, visits, s)
}

/// A new label keeps the others.
proof fn lemma_entered_more(
    problem: HoldProblem<'_>,
    visits: Map<HoldRouteState, HoldRouteVisit>,
    state: HoldRouteState,
    visit: HoldRouteVisit,
)
    requires
        all_entered(problem, visits),
        is_entered(problem, visits.insert(state, visit), state),
    ensures
        all_entered(problem, visits.insert(state, visit)),
{
    let more = visits.insert(state, visit);
    assert forall|s: HoldRouteState| #[trigger] more.contains_key(s) implies is_entered(
        problem,
        more,
        s,
    ) by {
        if s != state {
            assert(visits.contains_key(s));
            assert(is_entered(problem, visits, s));
            if let Some(link) = visits[s].previous {
                let arrival_ps = choose|arrival_ps: u64| #[trigger]
                    leads_in(problem, link, arrival_ps, visits[s].arrival_ps);
                assert(leads_in(problem, link, arrival_ps, more[s].arrival_ps));
            }
        }
    }
}

/// Seeds are entered by the tree.
proof fn lemma_sown(problem: HoldProblem<'_>, starts: Seq<WireId>, count: int)
    ensures
        all_entered(problem, problem.sown(starts, count).visits),
    decreases count,
{
    if count > 0 {
        lemma_sown(problem, starts, count - 1);
        let wire = starts[count - 1];
        if problem.space.seed(wire) {
            let visit = problem.seed_visit(wire);
            lemma_entered_more(
                problem,
                problem.sown(starts, count - 1).visits,
                problem.state(wire, visit.arrival_ps as int),
                visit,
            );
        }
    }
}

/// Hops enter their states from the popped one.
proof fn lemma_expanded(
    problem: HoldProblem<'_>,
    popped: HoldQueueEntry,
    point: HoldPoint,
    count: int,
)
    requires
        all_entered(problem, point.visits),
        point.visits.contains_key(popped.state),
        popped.state == problem.state(popped.state.wire, popped.arrival_ps as int),
    ensures
        all_entered(problem, problem.expanded(popped, point, count).visits),
        problem.expanded(popped, point, count).visits.contains_key(popped.state),
    decreases count,
{
    if count > 0 {
        lemma_expanded(problem, popped, point, count - 1);
        let before = problem.expanded(popped, point, count - 1);
        let hop = problem.space.query.graph.device.neighbors@[popped.state.wire.0 as int]@[count
            - 1];
        let visit = problem.next_visit(popped, hop.1, hop.0);
        let state = problem.state(hop.0, visit.arrival_ps as int);
        if problem.space.hop(popped.state.wire, hop.1, hop.0) && problem.improves(
            before,
            state,
            visit,
        ) {
            let more = before.visits.insert(state, visit);
            let link = (popped.state, hop.1);
            assert(more[state] == visit);
            assert(visit.previous == Some(link));
            assert(more.contains_key(link.0));
            assert(link.0 == problem.state(link.0.wire, popped.arrival_ps as int));
            assert(0 <= problem.delay(hop.1));
            assert(leads_in(problem, link, popped.arrival_ps, visit.arrival_ps));
            assert(is_entered(problem, more, state));
            lemma_entered_more(problem, before.visits, state, visit);
        }
    }
}

/// Labels say how their states were entered throughout the course.
proof fn lemma_course(
    problem: HoldProblem<'_>,
    starts: Seq<WireId>,
    points: Seq<HoldPoint>,
    entries: Seq<HoldQueueEntry>,
    at: int,
)
    requires
        problem.is_course(starts, points, entries),
        0 <= at < points.len(),
    ensures
        all_entered(problem, points[at].visits),
    decreases at,
{
    if at == 0 {
        lemma_sown(problem, starts, starts.len() as int);
    } else {
        lemma_course(problem, starts, points, entries, at - 1);
        assert(problem.is_step_at(points, entries, at - 1));
        let before = points[at - 1];
        let entry = entries[at - 1];
        let rest = HoldPoint { visits: before.visits, queue: before.queue.remove(entry) };
        let hops = problem.space.query.graph.device.neighbors@[entry.state.wire.0 as int]@.len();
        if problem.is_current(before, entry) {
            assert(is_entered(problem, before.visits, entry.state));
            lemma_expanded(problem, entry, rest, hops as int);
        }
    }
}

/// The lesser of two numbers.
spec fn lesser(a: int, b: int) -> int {
    if a < b {
        a
    } else {
        b
    }
}

/// Arrivals of one bucket lie within a bucket's width, as far as the minimum counts.
proof fn lemma_one_bucket(problem: HoldProblem<'_>, wire: WireId, a: int, b: int)
    requires
        0 <= a <= u64::MAX,
        0 <= b <= u64::MAX,
        0 <= problem.minimum_arrival_ps <= u32::MAX * 50,
        problem.state(wire, a) == problem.state(wire, b),
    ensures
        lesser(a, problem.minimum_arrival_ps) <= lesser(b, problem.minimum_arrival_ps) + 50,
{
    let least = problem.minimum_arrival_ps;
    crate::cost::lemma_ceil_div(least, HOLD_DELAY_QUANTUM_PS as int);
    assert(HOLD_DELAY_QUANTUM_PS == 50);
    assert(least / 50 <= u32::MAX);
    assert(least % 50 != 0 ==> least / 50 < u32::MAX);
    if a < least {
        assert(a / 50 <= least / 50);
    }
    if b < least {
        assert(b / 50 <= least / 50);
        if a >= least {
            assert(b / 50 < crate::cost::ceil_div(least, 50));
        } else {
            assert(a / 50 == b / 50);
        }
    }
}

/// The delays of a way back add up to its label, up to a bucket's width for each PIP.
proof fn lemma_trace_sum(
    problem: HoldProblem<'_>,
    visits: Map<HoldRouteState, HoldRouteVisit>,
    state: HoldRouteState,
    wires: Seq<WireId>,
    pips: Seq<PipId>,
)
    requires
        0 <= problem.minimum_arrival_ps <= u32::MAX * 50,
        all_entered(problem, visits),
        traces(visits, state, wires, pips),
    ensures
        problem.space.query.tree_delays_ps@[wires.last().0 as int] + delay_sum(
            problem.costs.pip_min_delays_ps@,
            pips,
        ) + 50 * pips.len() >= lesser(
            visits[state].arrival_ps as int,
            problem.minimum_arrival_ps,
        ),
    decreases wires.len(),
{
    let table = problem.costs.pip_min_delays_ps@;
    assert(is_entered(problem, visits, state));
    match visits[state].previous {
        None => {
            assert(wires.last() == wires[0]);
        },
        Some(link) => {
            lemma_trace_sum(problem, visits, link.0, wires.skip(1), pips.skip(1));
            lemma_delay_sum_first(table, pips);
            assert(wires.skip(1).last() == wires.last());
            let arrival_ps = choose|arrival_ps: u64| #[trigger]
                leads_in(problem, link, arrival_ps, visits[state].arrival_ps);
            assert(is_entered(problem, visits, link.0));
            lemma_one_bucket(
                problem,
                link.0.wire,
                arrival_ps as int,
                visits[link.0].arrival_ps as int,
            );
        },
    }
}

/// Whatever the occupancy, the path that a hold search gives keeps the minimum by the
/// minimum delays of its PIPs, but for the width of one delay bucket for each PIP.
pub proof fn a_hold_path_nearly_keeps_the_minimum(
    query: RouteQuery<'_>,
    starts: &OrderedSet<WireId>,
    minimum_arrival_ps: u64,
    path: (Vec<WireId>, Vec<PipId>),
    met: MetResources,
    costs: &RoutingCosts,
)
    requires
        query.costs == Some(costs),
        minimum_arrival_ps <= u32::MAX * 50,
        hold_answer(query, starts, minimum_arrival_ps, Some(path), met),
    ensures
        query.tree_delays_ps@[path.0@.last().0 as int] + delay_sum(
            costs.pip_min_delays_ps@,
            path.1@,
        ) + 50 * path.1@.len() >= minimum_arrival_ps,
{
    let problem = hold_problem(query, starts, costs, minimum_arrival_ps);
    let (points, entries) = choose|points: Seq<HoldPoint>, entries: Seq<HoldQueueEntry>|
        {
            &&& #[trigger] problem.is_course(starts.ordered(), points, entries)
            &&& problem.is_end(points.last(), Some(path))
            &&& problem.meets_all(points, entries, met)
        };
    let point = points.last();
    lemma_course(problem, starts.ordered(), points, entries, points.len() - 1);
    let entry = choose|entry: HoldQueueEntry| #[trigger]
        crate::hold_course::is_least(point.queue, entry) && problem.delivers(
            point,
            entry,
            path.0@,
            path.1@,
        );
    assert(problem.delivers(point, entry, path.0@, path.1@));
    lemma_trace_sum(problem, point.visits, entry.state, path.0@, path.1@);
}

/// A sink with an entry in the table of minimum route delays joins the tree by a path
/// that keeps that entry, by the minimum delays of its PIPs: exactly where the
/// occupancy is hard, and otherwise but for the width of one delay bucket for each PIP.
pub proof fn a_hold_sink_joins_late(
    router: NetRouter<'_>,
    net: NetId,
    sink: CellPinId,
    goal: WireId,
    estimates: RouteSearch,
    before: GrowthPoint,
    path: (Vec<WireId>, Vec<PipId>),
    met: MetResources,
    costs: &RoutingCosts,
)
    requires
        router.costs == Some(costs),
        costs.sink_min_delays_ps@.contains_key(Connection { net, sink }),
        0 < costs.sink_min_delays_ps@[Connection { net, sink }] <= u32::MAX * 50,
        router.finds_path(net, sink, goal, estimates, before, path, met),
    ensures
        before.arrivals[path.0@.last().0 as int] + delay_sum(
            costs.pip_min_delays_ps@,
            path.1@,
        ) + if router.hard_occupancy is Some {
            0
        } else {
            50 * path.1@.len()
        } >= costs.sink_min_delays_ps@[Connection { net, sink }],
{
    let least = costs.sink_min_delays_ps@[Connection { net, sink }];
    let (search, query) = choose|search: RouteSearch, query: RouteQuery<'_>|
        {
            &&& search.same_estimates(&estimates)
            &&& #[trigger] router.asks(query, net, sink, goal, before.arrivals)
            &&& #[trigger] router.sink_answer(
                search,
                query,
                &before.tree.wires,
                crate::routing_costs::sink_minimum(router.costs, net, sink),
                Some(path),
                met,
            )
        };
    a_hold_path_nearly_keeps_the_minimum(query, &before.tree.wires, least, path, met, costs);
    if router.hard_occupancy is Some {
        a_hold_path_keeps_the_minimum(query, &before.tree.wires, least, path, met, costs);
    }
}

/// The arrival at the end of a path that joins the tree is the arrival of the tree
/// wire that it leaves from and the delays of its PIPs: the minimum delays where a
/// minimum was asked for, and the maximum delays where none was.
pub proof fn a_joined_path_arrives_by_its_corner(
    router: NetRouter<'_>,
    costs: &RoutingCosts,
    arrivals: Seq<u64>,
    wires: Seq<WireId>,
    pips: Seq<PipId>,
    minimum_arrival_ps: u64,
)
    requires
        router.costs == Some(costs),
        wires.len() == pips.len() + 1,
        arrivals[wires.last().0 as int] + delay_sum(
            if minimum_arrival_ps == 0 {
                costs.pip_delays_ps@
            } else {
                costs.pip_min_delays_ps@
            },
            pips,
        ) <= u64::MAX,
    ensures
        minimum_arrival_ps == 0 ==> router.path_arrivals(
            arrivals,
            wires,
            pips,
            minimum_arrival_ps,
            0,
        ).1 == arrivals[wires.last().0 as int] + delay_sum(costs.pip_delays_ps@, pips),
        minimum_arrival_ps != 0 ==> router.path_arrivals(
            arrivals,
            wires,
            pips,
            minimum_arrival_ps,
            0,
        ).1 == arrivals[wires.last().0 as int] + delay_sum(costs.pip_min_delays_ps@, pips),
{
    let table = if minimum_arrival_ps == 0 {
        costs.pip_delays_ps@
    } else {
        costs.pip_min_delays_ps@
    };
    assert(pips.skip(0) =~= pips);
    lemma_path_arrival(router, costs, table, arrivals, wires, pips, minimum_arrival_ps, 0);
}

/// The arrival of the last part of a path.
proof fn lemma_path_arrival(
    router: NetRouter<'_>,
    costs: &RoutingCosts,
    table: Seq<u32>,
    arrivals: Seq<u64>,
    wires: Seq<WireId>,
    pips: Seq<PipId>,
    minimum_arrival_ps: u64,
    index: int,
)
    requires
        router.costs == Some(costs),
        wires.len() == pips.len() + 1,
        0 <= index <= pips.len(),
        table == if minimum_arrival_ps == 0 {
            costs.pip_delays_ps@
        } else {
            costs.pip_min_delays_ps@
        },
        arrivals[wires.last().0 as int] + delay_sum(table, pips.skip(index)) <= u64::MAX,
    ensures
        router.path_arrivals(arrivals, wires, pips, minimum_arrival_ps, index).1
            == arrivals[wires.last().0 as int] + delay_sum(table, pips.skip(index)),
    decreases pips.len() - index,
{
    if index < pips.len() {
        lemma_delay_sum_first(table, pips.skip(index));
        assert(pips.skip(index).skip(1) =~= pips.skip(index + 1));
        assert(pips.skip(index)[0] == pips[index]);
        lemma_path_arrival(
            router,
            costs,
            table,
            arrivals,
            wires,
            pips,
            minimum_arrival_ps,
            index + 1,
        );
    } else {
        assert(pips.skip(index) =~= Seq::empty());
        assert(wires.last() == wires[pips.len() as int]);
    }
}

} // verus!
