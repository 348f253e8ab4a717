//! Search for one connection: hold repair, timing corridor, or the whole device.

use vstd::prelude::*;

use crate::hold::{hold_problem, shortest_hold_path};
use crate::model::{PipId, WireId};
use crate::ordered::OrderedSet;
use crate::search::{
    blockers_grow, corridor_between, routing_corridor, space_of, starts_fit, HardRoutingBlockers,
    MetResources, RouteQuery, RouteSearch, RoutingCorridor, SearchSpace, TIMING_ROUTE_MARGIN,
};

verus! {

/// The tree wire arrives first; of two, the nearer to the goal; of two, the least.
pub open spec fn is_earliest_start(
    query: RouteQuery<'_>,
    starts: Set<WireId>,
    start: WireId,
) -> bool {
    let points = query.metadata.wire_points@;
    let goal = points[query.goal.0 as int];
    let delays = query.tree_delays_ps@;
    &&& starts.contains(start)
    &&& forall|s: WireId| #[trigger]
        starts.contains(s) ==> {
            let near = points[start.0 as int].distance(goal);
            let far = points[s.0 as int].distance(goal);
            ||| delays[start.0 as int] < delays[s.0 as int]
            ||| delays[start.0 as int] == delays[s.0 as int] && near < far
            ||| delays[start.0 as int] == delays[s.0 as int] && near == far && start.0 <= s.0
        }
}

/// The tree wire that arrives first.
pub open spec fn earliest_start(query: RouteQuery<'_>, starts: Set<WireId>) -> WireId {
    choose|start: WireId| is_earliest_start(query, starts, start)
}

/// Corridor of a timing-driven search.
///
/// A geometrically close branch can have reached this area through a very slow
/// detour. The corridor is therefore anchored at the earliest tree wire, so
/// that it never hides the driver behind a late branch.
pub open spec fn timing_corridor(query: RouteQuery<'_>, starts: Set<WireId>) -> RoutingCorridor {
    corridor_between(
        query.metadata.wire_points@[earliest_start(query, starts).0 as int],
        query.metadata.wire_points@[query.goal.0 as int],
        query.graph.device,
        TIMING_ROUTE_MARGIN as int,
    )
}

/// The tree wire that arrives first.
fn find_earliest_start(query: &RouteQuery<'_>, starts: &OrderedSet<WireId>) -> (result: WireId)
    requires
        query.wf(),
        starts.wf(),
        starts.ordered().len() > 0,
        forall|w: WireId| #[trigger]
            starts@.contains(w) ==> w.0 < query.graph.device.wires@.len() && w.0
                < query.tree_delays_ps@.len(),
    ensures
        result == earliest_start(*query, starts@),
        starts@.contains(result),
{
    let goal = query.metadata.wire_points[query.goal.0];
    let mut best = starts.at(0);
    let mut best_delay: u64 = query.tree_delays_ps[best.0];
    let mut best_distance: u64 = query.metadata.wire_points[best.0].manhattan(goal);
    let mut index: usize = 1;
    while index < starts.len()
        invariant
            1 <= index <= starts.ordered().len(),
            query.wf(),
            starts.wf(),
            forall|w: WireId| #[trigger]
                starts@.contains(w) ==> w.0 < query.graph.device.wires@.len() && w.0
                    < query.tree_delays_ps@.len(),
            goal == query.metadata.wire_points@[query.goal.0 as int],
            starts@.contains(best),
            best_delay == query.tree_delays_ps@[best.0 as int],
            best_distance == query.metadata.wire_points@[best.0 as int].distance(goal),
            forall|i: int|
                0 <= i < index ==> {
                    let s = #[trigger] starts.ordered()[i];
                    let far = query.metadata.wire_points@[s.0 as int].distance(goal);
                    ||| best_delay < query.tree_delays_ps@[s.0 as int]
                    ||| best_delay == query.tree_delays_ps@[s.0 as int] && best_distance < far
                    ||| best_delay == query.tree_delays_ps@[s.0 as int] && best_distance == far
                        && best.0 <= s.0
                },
        decreases starts.ordered().len() - index,
    {
        let start = starts.at(index);
        let delay: u64 = query.tree_delays_ps[start.0];
        let distance: u64 = query.metadata.wire_points[start.0].manhattan(goal);
        if delay < best_delay || (delay == best_delay && (distance < best_distance || (distance
            == best_distance && start.0 < best.0))) {
            best = start;
            best_delay = delay;
            best_distance = distance;
        }
        index = index + 1;
    }
    proof {
        assert forall|s: WireId| #[trigger] starts@.contains(s) implies {
            let near = query.metadata.wire_points@[best.0 as int].distance(goal);
            let far = query.metadata.wire_points@[s.0 as int].distance(goal);
            let delays = query.tree_delays_ps@;
            ||| delays[best.0 as int] < delays[s.0 as int]
            ||| delays[best.0 as int] == delays[s.0 as int] && near < far
            ||| delays[best.0 as int] == delays[s.0 as int] && near == far && best.0 <= s.0
        } by {
            starts.membership(s);
            let i = starts.ordered().index_of(s);
            assert(starts.ordered()[i] == s);
        }
        assert(is_earliest_start(*query, starts@, best));
        let chosen = earliest_start(*query, starts@);
        assert(is_earliest_start(*query, starts@, chosen));
        assert(starts@.contains(chosen));
        assert(best.0 == chosen.0);
    }
    best
}

/// No route of the space leads to the goal.
pub open spec fn unreachable_in(space: SearchSpace<'_>) -> bool {
    forall|wires: Seq<WireId>, pips: Seq<PipId>|
        #![trigger space.is_walk(wires, pips)]
        space.is_walk(wires, pips) ==> wires.last() != space.query.goal
}

/// What a search without a minimum arrival answers.
pub open spec fn setup_answer(
    search: RouteSearch,
    query: RouteQuery<'_>,
    starts: &OrderedSet<WireId>,
    avoid: Option<&OrderedSet<WireId>>,
    result: Option<(Vec<WireId>, Vec<PipId>)>,
    met: MetResources,
) -> bool {
    let whole = space_of(query, starts, avoid, None);
    let narrow = space_of(query, starts, avoid, Some(timing_corridor(query, starts@)));
    &&& search.searches(
        if query.criticality == 0 || unreachable_in(narrow) {
            whole
        } else {
            narrow
        },
        starts.ordered(),
        result,
        met,
    )
    &&& query.criticality != 0 && unreachable_in(narrow) ==> search.searches(
        narrow,
        starts.ordered(),
        None,
        met,
    )
    &&& match result {
        None => unreachable_in(whole),
        Some(path) => {
            let wires = path.0@.reverse();
            let pips = path.1@.reverse();
            &&& whole.is_walk(wires, pips)
            &&& wires.last() == query.goal
            &&& wires.no_duplicates()
            &&& query.criticality == 0 ==> search.best_walk(whole, wires, pips)
            &&& query.criticality != 0 && !unreachable_in(narrow) ==> search.best_walk(
                narrow,
                wires,
                pips,
            )
            &&& query.criticality != 0 && unreachable_in(narrow) ==> search.best_walk(
                whole,
                wires,
                pips,
            )
        },
    }
}

/// What a search with a minimum arrival answers.
pub open spec fn hold_answer(
    query: RouteQuery<'_>,
    starts: &OrderedSet<WireId>,
    minimum_arrival_ps: u64,
    result: Option<(Vec<WireId>, Vec<PipId>)>,
    met: MetResources,
) -> bool {
    match query.costs {
        None => result is None,
        Some(costs) => {
            let problem = hold_problem(query, starts, costs, minimum_arrival_ps);
            &&& problem.searches(starts.ordered(), result, met)
            &&& match result {
                None => problem.is_late() ==> unreachable_in(problem.space),
                Some(path) => {
                    let wires = path.0@.reverse();
                    let pips = path.1@.reverse();
                    &&& problem.space.is_walk(wires, pips)
                    &&& wires.last() == query.goal
                    &&& wires.no_duplicates()
                    &&& problem.is_hard() ==> problem.walk_arrival(wires, pips, pips.len() as int)
                        >= minimum_arrival_ps
                },
            }
        },
    }
}

/// What was met stays met.
pub proof fn lemma_setup_more(
    search: RouteSearch,
    query: RouteQuery<'_>,
    starts: &OrderedSet<WireId>,
    avoid: Option<&OrderedSet<WireId>>,
    result: Option<(Vec<WireId>, Vec<PipId>)>,
    met: MetResources,
    more: MetResources,
)
    requires
        setup_answer(search, query, starts, avoid, result, met),
        met.within(more),
    ensures
        setup_answer(search, query, starts, avoid, result, more),
{
    let whole = space_of(query, starts, avoid, None);
    let narrow = space_of(query, starts, avoid, Some(timing_corridor(query, starts@)));
    if query.criticality == 0 || unreachable_in(narrow) {
        search.lemma_searches_more(whole, starts.ordered(), result, met, more);
    } else {
        search.lemma_searches_more(narrow, starts.ordered(), result, met, more);
    }
    if query.criticality != 0 && unreachable_in(narrow) {
        search.lemma_searches_more(narrow, starts.ordered(), None, met, more);
    }
}

/// A route of a corridor is a route of the whole device.
pub proof fn corridor_walk_is_a_walk(
    query: RouteQuery<'_>,
    starts: &OrderedSet<WireId>,
    avoid: Option<&OrderedSet<WireId>>,
    corridor: RoutingCorridor,
    wires: Seq<WireId>,
    pips: Seq<PipId>,
)
    requires
        space_of(query, starts, avoid, Some(corridor)).is_walk(wires, pips),
    ensures
        space_of(query, starts, avoid, None).is_walk(wires, pips),
{
    let narrow = space_of(query, starts, avoid, Some(corridor));
    let whole = space_of(query, starts, avoid, None);
    assert(narrow.seed(wires[0]));
    assert forall|i: int| 0 <= i < pips.len() implies whole.hop(
        wires[i],
        #[trigger] pips[i],
        wires[i + 1],
    ) by {
        assert(narrow.hop(wires[i], pips[i], wires[i + 1]));
    }
}

impl RouteSearch {
    /// Searches for one connection.
    ///
    /// With a minimum arrival this is a hold search. Otherwise a timed
    /// connection is first searched in its corridor, and then, as any other, on
    /// the whole device: it fails exactly where no route leads to the goal.
    pub fn shortest_path(
        &mut self,
        query: &RouteQuery<'_>,
        starts: &OrderedSet<WireId>,
        avoid: Option<&OrderedSet<WireId>>,
        blockers: &mut HardRoutingBlockers,
        minimum_arrival_ps: u64,
    ) -> (result: Option<(Vec<WireId>, Vec<PipId>)>)
        requires
            old(self).wf(query.graph.device.wires@.len() as int),
            query.wf(),
            starts_fit(starts, avoid, query.graph.device.wires@.len() as int),
            starts.ordered().len() > 0,
            forall|w: WireId| #[trigger] starts@.contains(w) ==> w.0 < query.tree_delays_ps@.len(),
            old(blockers).wf(),
        ensures
            final(self).wf(query.graph.device.wires@.len() as int),
            final(self).same_settings(old(self)),
            final(blockers).wf(),
            blockers_grow(*query, *old(blockers), *final(blockers)),
            minimum_arrival_ps == 0 ==> setup_answer(
                *old(self),
                *query,
                starts,
                avoid,
                result,
                final(blockers).met(),
            ),
            minimum_arrival_ps != 0 ==> hold_answer(
                *query,
                starts,
                minimum_arrival_ps,
                result,
                final(blockers).met(),
            ),
    {
        if minimum_arrival_ps != 0 {
            return match query.costs {
                None => None,
                Some(costs) => shortest_hold_path(
                    query,
                    starts,
                    blockers,
                    costs,
                    minimum_arrival_ps,
                ),
            };
        }
        let ghost whole = space_of(*query, starts, avoid, None);
        if query.criticality != 0 {
            let start = find_earliest_start(query, starts);
            let corridor = routing_corridor(
                query.metadata.wire_points[start.0],
                query.metadata.wire_points[query.goal.0],
                query.graph.device(),
                TIMING_ROUTE_MARGIN,
            );
            assert(corridor == timing_corridor(*query, starts@));
            let ghost narrow = space_of(*query, starts, avoid, Some(corridor));
            match self.shortest_path_attempt(query, starts, avoid, blockers, Some(corridor)) {
                Some(path) => {
                    proof {
                        corridor_walk_is_a_walk(
                            *query,
                            starts,
                            avoid,
                            corridor,
                            path.0@.reverse(),
                            path.1@.reverse(),
                        );
                        assert(!unreachable_in(narrow));
                    }
                    return Some(path);
                },
                None => {
                    assert(unreachable_in(narrow));
                },
            }
        }
        let ghost middle = *self;
        let ghost known = blockers.met();
        let result = self.shortest_path_attempt(query, starts, avoid, blockers, None);
        proof {
            if query.criticality != 0 {
                old(self).lemma_searches_more(
                    space_of(*query, starts, avoid, Some(timing_corridor(*query, starts@))),
                    starts.ordered(),
                    None,
                    known,
                    blockers.met(),
                );
            }
            middle.lemma_same_searches(
                &*old(self),
                whole,
                starts.ordered(),
                result,
                blockers.met(),
            );
            if result is Some {
                middle.lemma_same_settings_same_best(
                    *old(self),
                    whole,
                    (result->0).0@.reverse(),
                    (result->0).1@.reverse(),
                );
            }
        }
        result
    }

    /// Which route is best depends on the estimate coefficients alone.
    proof fn lemma_same_settings_same_best(
        &self,
        other: RouteSearch,
        space: SearchSpace<'_>,
        wires: Seq<WireId>,
        pips: Seq<PipId>,
    )
        requires
            self.same_settings(&other),
            self.best_walk(space, wires, pips),
        ensures
            other.best_walk(space, wires, pips),
    {
        if space.query.has_fixed_costs() {
            assert forall|others: Seq<WireId>, other_pips: Seq<PipId>|
                #![trigger space.is_walk(others, other_pips)]
                space.is_walk(others, other_pips) && others.last()
                    == space.query.goal implies exists|i: int|
                0 <= i < others.len() && other.whole_estimate(
                    space.query,
                    space.walk_cost(wires, pips, pips.len() as int),
                    space.query.goal.0 as int,
                ) <= other.whole_estimate(
                    space.query,
                    #[trigger] space.walk_cost(others, other_pips, i),
                    others[i].0 as int,
                ) by {
                let i = choose|i: int|
                    0 <= i < others.len() && self.whole_estimate(
                        space.query,
                        space.walk_cost(wires, pips, pips.len() as int),
                        space.query.goal.0 as int,
                    ) <= self.whole_estimate(
                        space.query,
                        #[trigger] space.walk_cost(others, other_pips, i),
                        others[i].0 as int,
                    );
                assert(space.walk_cost(others, other_pips, i) == space.walk_cost(
                    others,
                    other_pips,
                    i,
                ));
            }
        }
    }
}

/// Where a search follows no estimate and hop costs are fixed, its answer is a
/// cheapest route: no other route of the same space costs less.
pub proof fn unestimated_answer_is_cheapest(
    search: RouteSearch,
    space: SearchSpace<'_>,
    wires: Seq<WireId>,
    pips: Seq<PipId>,
    other: Seq<WireId>,
    other_pips: Seq<PipId>,
)
    requires
        search.best_walk(space, wires, pips),
        space.query.wf(),
        space.query.has_fixed_costs(),
        !space.query.follows_estimate(),
        space.is_walk(other, other_pips),
        other.last() == space.query.goal,
        forall|w: WireId| #[trigger] space.starts.contains(w) ==> w.0
            < space.query.tree_delays_ps@.len(),
    ensures
        space.walk_cost(wires, pips, pips.len() as int) <= space.walk_cost(
            other,
            other_pips,
            other_pips.len() as int,
        ),
{
    let i = choose|i: int|
        0 <= i < other.len() && search.whole_estimate(
            space.query,
            space.walk_cost(wires, pips, pips.len() as int),
            space.query.goal.0 as int,
        ) <= search.whole_estimate(
            space.query,
            #[trigger] space.walk_cost(other, other_pips, i),
            other[i].0 as int,
        );
    lemma_walk_cost_range(space, wires, pips, pips.len() as int);
    lemma_walk_cost_range(space, other, other_pips, i);
    lemma_walk_cost_grows(space, other, other_pips, i, other_pips.len() as int);
}

/// The cost of a walk stays in the compact range.
proof fn lemma_walk_cost_range(
    space: SearchSpace<'_>,
    wires: Seq<WireId>,
    pips: Seq<PipId>,
    index: int,
)
    requires
        space.query.wf(),
        space.is_walk(wires, pips),
        0 <= index <= pips.len(),
        forall|w: WireId| #[trigger] space.starts.contains(w) ==> w.0
            < space.query.tree_delays_ps@.len(),
    ensures
        0 <= space.walk_cost(wires, pips, index) <= u32::MAX,
    decreases index,
{
    if index > 0 {
        lemma_walk_cost_range(space, wires, pips, index - 1);
        lemma_hop_cost_positive(space, wires, pips, index - 1);
    } else {
        assert(space.seed(wires[0]));
        crate::cost::lemma_ceil_div(
            space.query.tree_delays_ps@[wires[0].0 as int] as int,
            space.query.delay_quantum_ps as int,
        );
    }
}

/// Every hop costs at least one.
proof fn lemma_hop_cost_positive(
    space: SearchSpace<'_>,
    wires: Seq<WireId>,
    pips: Seq<PipId>,
    index: int,
)
    requires
        space.query.wf(),
        space.is_walk(wires, pips),
        0 <= index < pips.len(),
    ensures
        space.query.hop_cost(pips[index], wires[index + 1]) >= 1,
{
    let query = space.query;
    let pip = pips[index];
    assert(space.hop(wires[index], pip, wires[index + 1]));
    query.graph.device.lemma_listed(wires[index], pip, wires[index + 1]);
    crate::cost::step_cost_is_monotone(
        query.pip_delay(pip),
        query.pip_delay(pip),
        query.criticality as int,
        query.congestion(pip, wires[index + 1]),
        query.congestion(pip, wires[index + 1]),
        query.delay_quantum_ps as int,
    );
}

/// A longer part of a walk never costs less.
proof fn lemma_walk_cost_grows(
    space: SearchSpace<'_>,
    wires: Seq<WireId>,
    pips: Seq<PipId>,
    short: int,
    long: int,
)
    requires
        space.query.wf(),
        space.is_walk(wires, pips),
        0 <= short <= long <= pips.len(),
        forall|w: WireId| #[trigger] space.starts.contains(w) ==> w.0
            < space.query.tree_delays_ps@.len(),
    ensures
        space.walk_cost(wires, pips, short) <= space.walk_cost(wires, pips, long),
    decreases long,
{
    if short < long {
        lemma_walk_cost_grows(space, wires, pips, short, long - 1);
        lemma_walk_cost_range(space, wires, pips, long - 1);
        lemma_hop_cost_positive(space, wires, pips, long - 1);
    }
}

} // verus!
