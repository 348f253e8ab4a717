//! The route tree of one net under construction.

use vstd::prelude::*;
use vstd::string::*;

use crate::connection::{lemma_setup_more, hold_answer, setup_answer, unreachable_in};
use crate::cost::{
    clip_u64, saturating_product, ROUTING_CRITICALITY_SCALE, ROUTING_DELAY_QUANTUM_PS,
};
use crate::device::{Device, UnifiedGraph};
use crate::model::{CellPinId, NetId, PipId, WireId};
use crate::net_router::{
    alternate_source, best_alternate_source, path_fits, path_score, route_path_score,
    AlternateSource,
};
use crate::ordered::{OrderedKey, OrderedSet};
use crate::placement::{PinWireCache, Placement};
use crate::routing_costs::{arc_criticality, routing_arc_criticality, RoutingCosts};
use crate::search::{MetResources, 
    blocked_in, space_of, HardRoutingBlockers, HardRoutingOccupancy, RouteQuery, RouteSearch,
    RoutingResourceMetadata, TIMING_ROUTE_MARGIN,
};
use crate::tree::RouteTree;

verus! {

/// Everything that prices or forbids the routes of one trial.
#[derive(Clone, Copy)]
pub struct NetRouter<'a> {
    /// Design and device.
    pub graph: UnifiedGraph<'a>,
    /// Placement that is routed.
    pub placement: &'a Placement,
    /// Wires of the placed pins.
    pub pin_wires: &'a PinWireCache,
    /// Negotiated price of each wire.
    pub wire_congestion: &'a [u32],
    /// Negotiated price of each PIP.
    pub pip_congestion: &'a [u32],
    /// Forbidden PIPs, sixty-four to a word.
    pub blocked_pip_words: &'a [u64],
    /// Occupancy that must not be exceeded.
    pub hard_occupancy: Option<HardRoutingOccupancy<'a>>,
    /// Whether another start of the tree may be tried for a critical sink.
    pub allow_alternate_source: bool,
    /// Delays and criticalities.
    pub costs: Option<&'a RoutingCosts>,
    /// Geometry and capacities.
    pub metadata: RoutingResourceMetadata<'a>,
}

/// The costs cover the device, and criticalities and quantum are in range.
pub open spec fn costs_fit(device: &Device, costs: &RoutingCosts) -> bool {
    &&& costs.wf()
    &&& costs.pip_delays_ps@.len() == device.pips@.len()
    &&& costs.pip_min_delays_ps@.len() == device.pips@.len()
    &&& forall|n: NetId| #[trigger]
        costs.net_criticalities@.contains_key(n) ==> costs.net_criticalities@[n]
            <= ROUTING_CRITICALITY_SCALE
    &&& forall|c: crate::model::Connection| #[trigger]
        costs.sink_criticalities@.contains_key(c) ==> costs.sink_criticalities@[c]
            <= ROUTING_CRITICALITY_SCALE
    &&& 0 < costs.detailed_delay_quantum_ps <= ROUTING_DELAY_QUANTUM_PS
}

/// Delay quantum of a net.
pub open spec fn net_quantum(costs: Option<&RoutingCosts>, net: NetId) -> u64 {
    match costs {
        Some(costs) => if costs.detailed_timing_nets@.contains(net) {
            costs.detailed_delay_quantum_ps
        } else {
            ROUTING_DELAY_QUANTUM_PS
        },
        None => ROUTING_DELAY_QUANTUM_PS,
    }
}

/// The best other start of the tree, where the path joins the tree late and near
/// the goal, and the start is early and far.
pub open spec fn is_worth_trying(
    search: RouteSearch,
    query: RouteQuery<'_>,
    tree: &OrderedSet<WireId>,
    delay_per_tile_ps: u64,
    first: (Vec<WireId>, Vec<PipId>),
    other: AlternateSource,
) -> bool {
    let incumbent = first.0@.last();
    let points = query.metadata.wire_points@;
    &&& tree@.contains(other.wire)
    &&& other.wire != incumbent
    &&& other == alternate_source(search, query, delay_per_tile_ps, other.wire)
    &&& forall|w: WireId| #[trigger]
        tree@.contains(w) && w != incumbent ==> other.rank() <= alternate_source(
            search,
            query,
            delay_per_tile_ps,
            w,
        ).rank()
    &&& other.score <= path_score(query, first.0@, first.1@, first.1@.len() as int)
    &&& points[incumbent.0 as int].distance(points[query.goal.0 as int]) <= TIMING_ROUTE_MARGIN
    &&& other.distance > TIMING_ROUTE_MARGIN
    &&& clip_u64(other.arrival_ps + clip_u64(query.delay_quantum_ps * 10))
        < query.tree_delays_ps@[incumbent.0 as int]
}

/// What the search from the other start gives: a path that scores better than the first.
pub open spec fn is_recovery(
    search: RouteSearch,
    query: RouteQuery<'_>,
    tree: &OrderedSet<WireId>,
    delay_per_tile_ps: u64,
    first: (Vec<WireId>, Vec<PipId>),
    result: Option<(Vec<WireId>, Vec<PipId>)>,
    met: MetResources,
) -> bool {
    exists|now: RouteSearch, other: Option<AlternateSource>|
        {
            &&& now.same_estimates(&search)
            &&& #[trigger] is_choice(now, query, tree, delay_per_tile_ps, first, other)
            &&& match other {
                Some(start) => is_retry(search, query, tree, start.wire, first, result, met),
                None => result is None,
            }
        }
}

/// Only the estimates of the search matter.
proof fn lemma_same_recovery(
    a: RouteSearch,
    b: RouteSearch,
    query: RouteQuery<'_>,
    tree: &OrderedSet<WireId>,
    delay_per_tile_ps: u64,
    first: (Vec<WireId>, Vec<PipId>),
    result: Option<(Vec<WireId>, Vec<PipId>)>,
    met: MetResources,
)
    requires
        a.same_estimates(&b),
        is_recovery(a, query, tree, delay_per_tile_ps, first, result, met),
    ensures
        is_recovery(b, query, tree, delay_per_tile_ps, first, result, met),
{
    let (now, other) = choose|now: RouteSearch, other: Option<AlternateSource>|
        {
            &&& now.same_estimates(&a)
            &&& #[trigger] is_choice(now, query, tree, delay_per_tile_ps, first, other)
            &&& match other {
                Some(start) => is_retry(a, query, tree, start.wire, first, result, met),
                None => result is None,
            }
        };
    assert(now.same_estimates(&b));
    if let Some(start) = other {
        let (then, starts, answer) = choose|
            then: RouteSearch,
            starts: OrderedSet<WireId>,
            answer: Option<(Vec<WireId>, Vec<PipId>)>,
        |
            {
                &&& then.same_estimates(&a)
                &&& starts.wf()
                &&& starts@ == set![start.wire]
                &&& #[trigger] setup_answer(then, query, &starts, Some(tree), answer, met)
                &&& result == if answer is Some && path_score(
                    query,
                    (answer->0).0@,
                    (answer->0).1@,
                    (answer->0).1@.len() as int,
                ) < path_score(query, first.0@, first.1@, first.1@.len() as int) {
                    answer
                } else {
                    None
                }
            };
        assert(then.same_estimates(&b));
        assert(setup_answer(then, query, &starts, Some(tree), answer, met));
        assert(is_retry(b, query, tree, start.wire, first, result, met));
    }
    assert(is_choice(now, query, tree, delay_per_tile_ps, first, other));
}

/// The start that is worth trying, where there is one.
pub open spec fn is_choice(
    search: RouteSearch,
    query: RouteQuery<'_>,
    tree: &OrderedSet<WireId>,
    delay_per_tile_ps: u64,
    first: (Vec<WireId>, Vec<PipId>),
    other: Option<AlternateSource>,
) -> bool {
    match other {
        Some(start) => is_worth_trying(search, query, tree, delay_per_tile_ps, first, start),
        None => forall|start: AlternateSource| !#[trigger]
            is_worth_trying(search, query, tree, delay_per_tile_ps, first, start),
    }
}

/// What a second search from one wire gives, where it scores better than the first.
pub open spec fn is_retry(
    search: RouteSearch,
    query: RouteQuery<'_>,
    tree: &OrderedSet<WireId>,
    start: WireId,
    first: (Vec<WireId>, Vec<PipId>),
    result: Option<(Vec<WireId>, Vec<PipId>)>,
    met: MetResources,
) -> bool {
    exists|
        now: RouteSearch,
        starts: OrderedSet<WireId>,
        answer: Option<(Vec<WireId>, Vec<PipId>)>,
    |
        {
            &&& now.same_estimates(&search)
            &&& starts.wf()
            &&& starts@ == set![start]
            &&& #[trigger] setup_answer(now, query, &starts, Some(tree), answer, met)
            &&& result == if answer is Some && path_score(
                query,
                (answer->0).0@,
                (answer->0).1@,
                (answer->0).1@.len() as int,
            ) < path_score(query, first.0@, first.1@, first.1@.len() as int) {
                answer
            } else {
                None
            }
        }
}

impl<'a> NetRouter<'a> {
    /// The tables cover the device and the placement.
    pub open spec fn wf(&self) -> bool {
        let wires = self.graph.device.wires@.len();
        let pips = self.graph.device.pips@.len();
        &&& self.graph.wf()
        &&& self.placement.fits(self.graph.device)
        &&& self.pin_wires.holds(self.graph, self.placement)
        &&& self.wire_congestion@.len() == wires
        &&& self.pip_congestion@.len() == pips
        &&& self.metadata.wire_points@.len() == wires
        &&& self.metadata.wire_capacities@.len() == wires
        &&& self.metadata.pip_capacities@.len() == pips
        &&& self.hard_occupancy matches Some(occupancy) ==> occupancy.wires@.len() == wires
            && occupancy.pips@.len() == pips
        &&& self.costs matches Some(costs) ==> costs_fit(self.graph.device, costs)
    }

    /// The wire can take one more net.
    pub open spec fn wire_free(&self, wire: WireId) -> bool {
        self.hard_occupancy matches Some(occupancy) ==> occupancy.wires@[wire.0 as int]
            < self.metadata.wire_capacities@[wire.0 as int]
    }

    /// The PIP can take one more net.
    pub open spec fn pip_free(&self, pip: PipId) -> bool {
        self.hard_occupancy matches Some(occupancy) ==> occupancy.pips@[pip.0 as int]
            < self.metadata.pip_capacities@[pip.0 as int]
    }

    /// A route may pass from one wire to another by the PIP.
    pub open spec fn open_hop(&self, from: WireId, pip: PipId, to: WireId) -> bool {
        &&& self.graph.device.leads(from, pip, to)
        &&& !blocked_in(self.blocked_pip_words@, pip)
        &&& self.wire_free(to)
        &&& self.pip_free(pip)
    }

    /// Open hops from one wire on.
    pub open spec fn is_open_walk(&self, from: WireId, wires: Seq<WireId>, pips: Seq<PipId>) -> bool {
        &&& wires.len() == pips.len() + 1
        &&& wires[0] == from
        &&& forall|i: int|
            0 <= i < pips.len() ==> self.open_hop(wires[i], #[trigger] pips[i], wires[i + 1])
    }

    /// Open hops lead from one wire to another.
    pub open spec fn connected(&self, from: WireId, to: WireId) -> bool {
        exists|wires: Seq<WireId>, pips: Seq<PipId>| #[trigger]
            self.is_open_walk(from, wires, pips) && wires.last() == to
    }

    /// The query asks for the goal under this router's prices and restrictions.
    pub open spec fn asks(
        &self,
        query: RouteQuery<'_>,
        net: NetId,
        sink: CellPinId,
        goal: WireId,
        arrivals: Seq<u64>,
    ) -> bool {
        &&& query.graph == self.graph
        &&& query.goal == goal
        &&& query.wire_congestion == self.wire_congestion
        &&& query.pip_congestion == self.pip_congestion
        &&& query.blocked_pip_words == self.blocked_pip_words
        &&& query.hard_occupancy == self.hard_occupancy
        &&& query.costs == self.costs
        &&& query.criticality == arc_criticality(self.costs, net, sink)
        &&& query.delay_quantum_ps == net_quantum(self.costs, net)
        &&& query.tree_delays_ps@ == arrivals
        &&& query.metadata == self.metadata
    }

    /// Other nets fill the wire.
    pub open spec fn wire_full(&self, wire: WireId) -> bool {
        &&& wire.0 < self.graph.device.wires@.len()
        &&& self.hard_occupancy matches Some(occupancy) && occupancy.wires@[wire.0 as int]
            >= self.metadata.wire_capacities@[wire.0 as int]
    }

    /// Other nets fill the PIP.
    pub open spec fn pip_full(&self, pip: PipId) -> bool {
        &&& pip.0 < self.graph.device.pips@.len()
        &&& self.hard_occupancy matches Some(occupancy) && occupancy.pips@[pip.0 as int]
            >= self.metadata.pip_capacities@[pip.0 as int]
    }

    /// What was recorded stays, and full resources alone are added.
    pub open spec fn records_full(
        &self,
        before: HardRoutingBlockers,
        after: HardRoutingBlockers,
    ) -> bool {
        &&& before.wires@.subset_of(after.wires@)
        &&& before.pips@.subset_of(after.pips@)
        &&& forall|w: WireId| #[trigger]
            after.wires@.contains(w) ==> before.wires@.contains(w) || self.wire_full(w)
        &&& forall|p: PipId| #[trigger]
            after.pips@.contains(p) ==> before.pips@.contains(p) || self.pip_full(p)
    }

    /// Delay quantum of a net.
    pub fn quantum(&self, net: NetId) -> (result: u64)
        requires
            self.wf(),
        ensures
            result == net_quantum(self.costs, net),
            0 < result <= ROUTING_DELAY_QUANTUM_PS,
    {
        match self.costs {
            Some(costs) => if costs.detailed_timing_nets.contains(net) {
                costs.detailed_delay_quantum_ps
            } else {
                ROUTING_DELAY_QUANTUM_PS
            },
            None => ROUTING_DELAY_QUANTUM_PS,
        }
    }

    /// The query for one connection.
    pub fn query<'b>(
        &self,
        net: NetId,
        sink: CellPinId,
        goal: WireId,
        arrivals: &'b [u64],
    ) -> (result: RouteQuery<'b>) where 'a: 'b
        requires
            self.wf(),
            goal.0 < self.graph.device.wires@.len(),
        ensures
            result.wf(),
            self.asks(result, net, sink, goal, arrivals@),
    {
        let criticality: u64 = routing_arc_criticality(self.costs, net, sink);
        RouteQuery {
            graph: self.graph,
            goal,
            wire_congestion: self.wire_congestion,
            pip_congestion: self.pip_congestion,
            blocked_pip_words: self.blocked_pip_words,
            hard_occupancy: self.hard_occupancy,
            costs: self.costs,
            criticality,
            delay_quantum_ps: self.quantum(net),
            tree_delays_ps: arrivals,
            metadata: self.metadata,
        }
    }

    /// The route, listed from its goal back, leads from the tree over new wires to the goal.
    pub open spec fn extends(
        &self,
        tree: Set<WireId>,
        goal: WireId,
        wires: Seq<WireId>,
        pips: Seq<PipId>,
    ) -> bool {
        &&& wires.len() == pips.len() + 1
        &&& wires[0] == goal
        &&& tree.contains(wires.last())
        &&& wires.no_duplicates()
        &&& forall|i: int|
            0 <= i < pips.len() ==> {
                &&& self.open_hop(wires[i + 1], #[trigger] pips[i], wires[i])
                &&& !tree.contains(wires[i])
            }
    }

    /// A walk of a space around the tree extends the tree.
    proof fn lemma_walk_extends(
        &self,
        query: RouteQuery<'_>,
        net: NetId,
        sink: CellPinId,
        goal: WireId,
        tree: Set<WireId>,
        space: crate::search::SearchSpace<'_>,
        wires: Seq<WireId>,
        pips: Seq<PipId>,
    )
        requires
            self.asks(query, net, sink, goal, query.tree_delays_ps@),
            space.query == query,
            space.starts.subset_of(tree),
            tree.subset_of(space.closed_wires),
            space.is_walk(wires.reverse(), pips.reverse()),
            wires.reverse().last() == goal,
            wires.reverse().no_duplicates(),
        ensures
            self.extends(tree, goal, wires, pips),
    {
        let forward = wires.reverse();
        let hops = pips.reverse();
        let count = pips.len() as int;
        assert(forward.last() == wires[0]);
        assert(forward[0] == wires[count]);
        assert(space.seed(forward[0]));
        assert forall|i: int| 0 <= i < pips.len() implies {
            &&& self.open_hop(wires[i + 1], #[trigger] pips[i], wires[i])
            &&& !tree.contains(wires[i])
        } by {
            let k = count - 1 - i;
            assert(hops[k] == pips[i]);
            assert(forward[k] == wires[i + 1]);
            assert(forward[k + 1] == wires[i]);
            assert(space.hop(forward[k], hops[k], forward[k + 1]));
        }
        assert forall|a: int, b: int|
            0 <= a < wires.len() && 0 <= b < wires.len() && a != b implies wires[a] != wires[b] by {
            assert(forward[count - a] == wires[a]);
            assert(forward[count - b] == wires[b]);
            assert(forward[count - a] != forward[count - b]);
        }
        assert(wires.no_duplicates());
        assert(wires.len() == pips.len() + 1);
        assert(wires.last() == wires[count]);
        assert(tree.contains(wires.last()));
        assert(wires[0] == goal);
    }

    /// The last part of an open walk, from the last wire on the tree, is a walk around the tree.
    proof fn lemma_connected_means_walk(
        &self,
        query: RouteQuery<'_>,
        net: NetId,
        sink: CellPinId,
        goal: WireId,
        tree: &OrderedSet<WireId>,
        from: WireId,
    )
        requires
            self.asks(query, net, sink, goal, query.tree_delays_ps@),
            tree@.contains(from),
            !tree@.contains(goal),
            self.connected(from, goal),
        ensures
            !unreachable_in(space_of(query, tree, None, None)),
    {
        let (wires, pips) = choose|wires: Seq<WireId>, pips: Seq<PipId>| #[trigger]
            self.is_open_walk(from, wires, pips) && wires.last() == goal;
        let space = space_of(query, tree, None, None);
        let i = lemma_last_member(wires, tree@, wires.len() - 1);
        let rest = wires.skip(i);
        let hops = pips.skip(i);
        assert(space.seed(rest[0]));
        assert forall|k: int| 0 <= k < hops.len() implies space.hop(
            rest[k],
            #[trigger] hops[k],
            rest[k + 1],
        ) by {
            assert(self.open_hop(wires[i + k], pips[i + k], wires[i + k + 1]));
            assert(!tree@.contains(wires[i + k + 1]));
        }
        assert(space.is_walk(rest, hops));
        assert(rest.last() == goal);
    }

    /// What the search for one connection answers: the route found first, or a
    /// better-scored one from another start of the tree.
    pub open spec fn sink_answer(
        &self,
        search: RouteSearch,
        query: RouteQuery<'_>,
        tree: &OrderedSet<WireId>,
        minimum_arrival_ps: u64,
        result: Option<(Vec<WireId>, Vec<PipId>)>,
        met: MetResources,
    ) -> bool {
        if minimum_arrival_ps != 0 {
            hold_answer(query, tree, minimum_arrival_ps, result, met)
        } else {
            exists|first: Option<(Vec<WireId>, Vec<PipId>)>|
                {
                    &&& #[trigger] setup_answer(search, query, tree, None, first, met)
                    &&& match (first, self.recovery_delay(query)) {
                        (Some(path), Some(delay_per_tile_ps)) => self.recovers(
                            search,
                            query,
                            tree,
                            delay_per_tile_ps,
                            path,
                            result,
                            met,
                        ),
                        _ => result == first,
                    }
                }
        }
    }

    /// Delay per tile of the recovery by another start, where the arc is critical
    /// enough for one.
    pub open spec fn recovery_delay(&self, query: RouteQuery<'_>) -> Option<u64> {
        if self.allow_alternate_source && query.criticality >= ROUTING_CRITICALITY_SCALE * 5 / 8 {
            match self.costs {
                Some(costs) => costs.alternate_source_delay_per_tile_ps,
                None => None,
            }
        } else {
            None
        }
    }

    /// The path itself, or the better one from the other start.
    pub open spec fn recovers(
        &self,
        search: RouteSearch,
        query: RouteQuery<'_>,
        tree: &OrderedSet<WireId>,
        delay_per_tile_ps: u64,
        first: (Vec<WireId>, Vec<PipId>),
        result: Option<(Vec<WireId>, Vec<PipId>)>,
        met: MetResources,
    ) -> bool {
        exists|other: Option<(Vec<WireId>, Vec<PipId>)>|
            #[trigger] is_recovery(search, query, tree, delay_per_tile_ps, first, other, met)
                && result == if other is Some {
                other
            } else {
                Some(first)
            }
    }

    /// Searches for one connection of a growing tree.
    pub fn find_extension(
        &self,
        net: NetId,
        sink: CellPinId,
        goal: WireId,
        minimum_arrival_ps: u64,
        tree: &RouteTree,
        search: &mut RouteSearch,
        arrivals: &Vec<u64>,
        blockers: &mut HardRoutingBlockers,
    ) -> (result: Option<(Vec<WireId>, Vec<PipId>)>)
        requires
            self.wf(),
            goal.0 < self.graph.device.wires@.len(),
            tree.wf(self.graph.device),
            !tree.wires@.contains(goal),
            forall|w: WireId| #[trigger]
                tree.wires@.contains(w) ==> w.0 < self.graph.device.wires@.len(),
            arrivals@.len() == self.graph.device.wires@.len(),
            old(search).wf(self.graph.device.wires@.len() as int),
            old(blockers).wf(),
        ensures
            final(search).wf(self.graph.device.wires@.len() as int),
            final(search).same_estimates(old(search)),
            final(blockers).wf(),
            self.records_full(*old(blockers), *final(blockers)),
            result matches Some(path) ==> self.extends(tree.wires@, goal, path.0@, path.1@),
            result is None && minimum_arrival_ps == 0 ==> !self.connected(tree.driver, goal),
            exists|query: RouteQuery<'_>|
                {
                    &&& #[trigger] self.asks(query, net, sink, goal, arrivals@)
                    &&& self.sink_answer(
                        *old(search),
                        query,
                        &tree.wires,
                        minimum_arrival_ps,
                        result,
                        final(blockers).met(),
                    )
                },
    {
        let query = self.query(net, sink, goal, arrivals.as_slice());
        let ghost count = self.graph.device.wires@.len() as int;
        proof {
            tree.wires.membership(tree.driver);
            assert(tree.wires.ordered().contains(tree.driver));
        }
        let first = search.shortest_path(
            &query,
            &tree.wires,
            None,
            blockers,
            minimum_arrival_ps,
        );
        let ghost answer = first;
        let ghost known = blockers.met();
        assert(minimum_arrival_ps == 0 ==> setup_answer(
            *old(search),
            query,
            &tree.wires,
            None,
            answer,
            known,
        ));
        let mut path = match first {
            None => {
                proof {
                    assert(self.sink_answer(
                        *old(search),
                        query,
                        &tree.wires,
                        minimum_arrival_ps,
                        answer,
                        known,
                    ));
                    if minimum_arrival_ps == 0 && self.connected(tree.driver, goal) {
                        self.lemma_connected_means_walk(
                            query,
                            net,
                            sink,
                            goal,
                            &tree.wires,
                            tree.driver,
                        );
                    }
                }
                return None;
            },
            Some(path) => path,
        };
        proof {
            if minimum_arrival_ps == 0 {
                self.lemma_walk_extends(
                    query,
                    net,
                    sink,
                    goal,
                    tree.wires@,
                    space_of(query, &tree.wires, None, None),
                    path.0@,
                    path.1@,
                );
            } else {
                let costs = query.costs->0;
                let problem = crate::hold::hold_problem(
                    query,
                    &tree.wires,
                    costs,
                    minimum_arrival_ps,
                );
                self.lemma_walk_extends(
                    query,
                    net,
                    sink,
                    goal,
                    tree.wires@,
                    problem.space,
                    path.0@,
                    path.1@,
                );
            }
        }
        let ghost given = path;
        if self.allow_alternate_source && minimum_arrival_ps == 0 && query.criticality
            >= ROUTING_CRITICALITY_SCALE * 5 / 8 {
            if let Some(costs) = self.costs {
                if let Some(delay_per_tile_ps) = costs.alternate_source_delay_per_tile_ps {
                    let ghost now = *search;
                    let recovered = self.try_alternate_source(
                        &query,
                        net,
                        sink,
                        tree,
                        search,
                        delay_per_tile_ps,
                        &path,
                        blockers,
                    );
                    proof {
                        lemma_same_recovery(
                            now,
                            *old(search),
                            query,
                            &tree.wires,
                            delay_per_tile_ps,
                            given,
                            recovered,
                            blockers.met(),
                        );
                        lemma_setup_more(
                            *old(search),
                            query,
                            &tree.wires,
                            None,
                            answer,
                            known,
                            blockers.met(),
                        );
                    }
                    if let Some(other) = recovered {
                        path = other;
                    }
                    assert(self.recovers(
                        *old(search),
                        query,
                        &tree.wires,
                        delay_per_tile_ps,
                        given,
                        Some(path),
                        blockers.met(),
                    ));
                }
            }
        }
        assert(self.sink_answer(
            *old(search),
            query,
            &tree.wires,
            minimum_arrival_ps,
            Some(path),
            blockers.met(),
        ));
        Some(path)
    }

    /// Searches from the one tree wire that long lines could make faster, where the
    /// first route joined the tree at a late branch.
    fn try_alternate_source(
        &self,
        query: &RouteQuery<'_>,
        net: NetId,
        sink: CellPinId,
        tree: &RouteTree,
        search: &mut RouteSearch,
        delay_per_tile_ps: u64,
        first: &(Vec<WireId>, Vec<PipId>),
        blockers: &mut HardRoutingBlockers,
    ) -> (result: Option<(Vec<WireId>, Vec<PipId>)>)
        requires
            self.wf(),
            query.wf(),
            self.asks(*query, net, sink, query.goal, query.tree_delays_ps@),
            query.tree_delays_ps@.len() == self.graph.device.wires@.len(),
            tree.wf(self.graph.device),
            forall|w: WireId| #[trigger]
                tree.wires@.contains(w) ==> w.0 < self.graph.device.wires@.len(),
            self.extends(tree.wires@, query.goal, first.0@, first.1@),
            old(search).wf(self.graph.device.wires@.len() as int),
            old(blockers).wf(),
        ensures
            final(search).wf(self.graph.device.wires@.len() as int),
            final(search).same_estimates(old(search)),
            final(blockers).wf(),
            self.records_full(*old(blockers), *final(blockers)),
            result matches Some(path) ==> self.extends(
                tree.wires@,
                query.goal,
                path.0@,
                path.1@,
            ),
            is_recovery(
                *old(search),
                *query,
                &tree.wires,
                delay_per_tile_ps,
                *first,
                result,
                final(blockers).met(),
            ),
    {
        proof {
            self.lemma_extension_fits(*query, net, sink, tree, first.0@, first.1@);
        }
        let incumbent_score: u64 = route_path_score(query, &first.0, &first.1);
        let incumbent = first.0[first.0.len() - 1];
        let goal_point = query.metadata.wire_points[query.goal.0];
        let incumbent_distance: u64 = query.metadata.wire_points[incumbent.0].manhattan(goal_point);
        let other = match best_alternate_source(
            search,
            query,
            &tree.wires,
            delay_per_tile_ps,
            incumbent,
        ) {
            None => {
                proof {
                    let none: Option<AlternateSource> = None;
                    assert(is_choice(
                        *old(search),
                        *query,
                        &tree.wires,
                        delay_per_tile_ps,
                        *first,
                        none,
                    ));
                }
                return None;
            },
            Some(other) => other,
        };
        if other.score > incumbent_score || incumbent_distance > TIMING_ROUTE_MARGIN as u64
            || other.distance <= TIMING_ROUTE_MARGIN as u64 || other.arrival_ps.saturating_add(
            saturating_product(query.delay_quantum_ps, 10),
        ) >= query.tree_delays_ps[incumbent.0] {
            proof {
                let none: Option<AlternateSource> = None;
                assert forall|start: AlternateSource| !#[trigger] is_worth_trying(
                    *old(search),
                    *query,
                    &tree.wires,
                    delay_per_tile_ps,
                    *first,
                    start,
                ) by {
                    if is_worth_trying(
                        *old(search),
                        *query,
                        &tree.wires,
                        delay_per_tile_ps,
                        *first,
                        start,
                    ) {
                        assert(tree.wires@.contains(start.wire));
                        assert(tree.wires@.contains(other.wire));
                        assert(start.rank() == other.rank());
                        AlternateSource::rank_is_injective(start, other);
                    }
                }
                assert(is_choice(
                    *old(search),
                    *query,
                    &tree.wires,
                    delay_per_tile_ps,
                    *first,
                    none,
                ));
            }
            return None;
        }
        assert(is_choice(
            *old(search),
            *query,
            &tree.wires,
            delay_per_tile_ps,
            *first,
            Some(other),
        ));
        search.alternate_source_attempts = search.alternate_source_attempts.saturating_add(1);
        let mut starts = OrderedSet::new();
        starts.insert(other.wire);
        proof {
            assert(starts@.contains(other.wire));
            starts.membership(other.wire);
            assert(starts.ordered().contains(other.wire));
            assert(starts@ =~= set![other.wire]);
        }
        let ghost now = *search;
        let answer = search.shortest_path(query, &starts, Some(&tree.wires), blockers, 0);
        assert(setup_answer(now, *query, &starts, Some(&tree.wires), answer, blockers.met()));
        let path = match answer {
            None => {
                proof {
                    let none: Option<(Vec<WireId>, Vec<PipId>)> = None;
                    assert(is_retry(
                        *old(search),
                        *query,
                        &tree.wires,
                        other.wire,
                        *first,
                        none,
                        blockers.met(),
                    ));
                }
                return None;
            },
            Some(path) => path,
        };
        proof {
            let result = if path_score(*query, path.0@, path.1@, path.1@.len() as int)
                < path_score(*query, first.0@, first.1@, first.1@.len() as int) {
                Some(path)
            } else {
                None
            };
            assert(is_retry(
                *old(search),
                *query,
                &tree.wires,
                other.wire,
                *first,
                result,
                blockers.met(),
            ));
            self.lemma_walk_extends(
                *query,
                net,
                sink,
                query.goal,
                tree.wires@,
                space_of(*query, &starts, Some(&tree.wires), None),
                path.0@,
                path.1@,
            );
            self.lemma_extension_fits(*query, net, sink, tree, path.0@, path.1@);
        }
        let score: u64 = route_path_score(query, &path.0, &path.1);
        if score < incumbent_score {
            search.alternate_source_improvements =
            search.alternate_source_improvements.saturating_add(1);
            Some(path)
        } else {
            None
        }
    }

    /// An extension of the tree runs over wires and PIPs of the device.
    pub proof fn lemma_extension_fits(
        &self,
        query: RouteQuery<'_>,
        net: NetId,
        sink: CellPinId,
        tree: &RouteTree,
        wires: Seq<WireId>,
        pips: Seq<PipId>,
    )
        requires
            self.wf(),
            self.asks(query, net, sink, query.goal, query.tree_delays_ps@),
            query.tree_delays_ps@.len() == self.graph.device.wires@.len(),
            self.extends(tree.wires@, query.goal, wires, pips),
            forall|w: WireId| #[trigger]
                tree.wires@.contains(w) ==> w.0 < self.graph.device.wires@.len(),
        ensures
            path_fits(query, wires, pips),
    {
        let device = self.graph.device;
        assert forall|i: int| 0 <= i < wires.len() implies (#[trigger] wires[i]).0
            < device.wires@.len() by {
            if i < pips.len() {
                assert(self.open_hop(wires[i + 1], pips[i], wires[i]));
                device.lemma_listed(wires[i + 1], pips[i], wires[i]);
            }
        }
        assert forall|i: int| 0 <= i < pips.len() implies (#[trigger] pips[i]).0
            < device.pips@.len() by {
            assert(self.open_hop(wires[i + 1], pips[i], wires[i]));
        }
    }
}

/// The last position up to a bound whose element is in a set.
proof fn lemma_last_member<T>(items: Seq<T>, set: Set<T>, bound: int) -> (index: int)
    requires
        0 <= bound < items.len(),
        set.contains(items[0]),
    ensures
        0 <= index <= bound,
        set.contains(items[index]),
        forall|i: int| index < i <= bound ==> !set.contains(#[trigger] items[i]),
    decreases bound,
{
    if set.contains(items[bound]) {
        bound
    } else {
        lemma_last_member(items, set, bound - 1)
    }
}

} // verus!
