//! Growth of one net's route tree, sink by sink.

use vstd::prelude::*;
use vstd::string::*;

use crate::cost::{
    routing_step_cost, routing_transition_cost, step_cost, timing_tree_cost, transition_cost,
    tree_cost, ROUTING_DELAY_QUANTUM_PS,
};
use crate::model::{CellPinId, NetId, PipId, WireId};
use crate::ordered::{lemma_digits, sort_keys, OrderedKey, OrderedMap, OrderedSet};
use crate::routing_costs::{
    arc_criticality, routing_arc_criticality, routing_sink_minimum, sink_minimum, RoutingCosts,
};
use crate::search::{RouteQuery, RouteSearch};

verus! {

/// Arrival of a wire outside the tree under construction.
pub const UNROUTED_ARRIVAL_PS: u64 = 0xffff_ffff_ffff_ffff;

/// Place of a sink in the growth of its net: the most critical first, then the
/// one with the greatest minimum delay, then the nearest, then the least.
#[derive(Clone, Copy, Debug, PartialEq, Eq, Structural)]
pub struct SinkOrder {
    /// Criticality of the arc.
    pub criticality: u64,
    /// Minimum delay of the arc.
    pub minimum_ps: u64,
    /// Distance from the driver.
    pub distance: u64,
    /// The sink.
    pub sink: CellPinId,
}

impl OrderedKey for SinkOrder {
    open spec fn rank(self) -> int {
        (((u64::MAX - self.criticality) * 0x1_0000_0000_0000_0000 + (u64::MAX - self.minimum_ps))
            * 0x1_0000_0000_0000_0000 + self.distance) * 0x1_0000_0000_0000_0000 + self.sink.0
    }

    proof fn rank_is_injective(a: Self, b: Self) {
    }

    fn precedes(self, other: Self) -> (result: bool) {
        if self.criticality != other.criticality {
            self.criticality > other.criticality
        } else if self.minimum_ps != other.minimum_ps {
            self.minimum_ps > other.minimum_ps
        } else if self.distance != other.distance {
            self.distance < other.distance
        } else {
            self.sink.0 < other.sink.0
        }
    }
}

/// Place of one sink.
pub open spec fn sink_order(
    net: NetId,
    costs: Option<&RoutingCosts>,
    distances: Map<CellPinId, u64>,
    sink: CellPinId,
) -> SinkOrder {
    SinkOrder {
        criticality: arc_criticality(costs, net, sink),
        minimum_ps: sink_minimum(costs, net, sink),
        distance: distances[sink],
        sink,
    }
}

/// Sinks in the order in which they join the tree.
pub fn ordered_sinks(
    net: NetId,
    sinks: &[CellPinId],
    costs: Option<&RoutingCosts>,
    distances: &OrderedMap<CellPinId, u64>,
) -> (result: Vec<CellPinId>)
    requires
        costs matches Some(costs) ==> costs.wf(),
        distances.wf(),
        forall|i: int| 0 <= i < sinks@.len() ==> distances@.contains_key(#[trigger] sinks@[i]),
    ensures
        result@.to_multiset() == sinks@.to_multiset(),
        result@.len() == sinks@.len(),
        forall|i: int, j: int|
            0 <= i < j < result@.len() ==> sink_order(
                net,
                costs,
                distances@,
                #[trigger] result@[i],
            ).rank() <= sink_order(net, costs, distances@, #[trigger] result@[j]).rank(),
{
    let mut keys: Vec<SinkOrder> = Vec::new();
    let mut index: usize = 0;
    while index < sinks.len()
        invariant
            index <= sinks@.len(),
            costs matches Some(costs) ==> costs.wf(),
            distances.wf(),
            forall|i: int| 0 <= i < sinks@.len() ==> distances@.contains_key(#[trigger] sinks@[i]),
            keys@.len() == index,
            forall|i: int|
                0 <= i < index ==> #[trigger] keys@[i] == sink_order(
                    net,
                    costs,
                    distances@,
                    sinks@[i],
                ),
        decreases sinks@.len() - index,
    {
        let sink = sinks[index];
        let distance: u64 = match distances.get(sink) {
            Some(distance) => *distance,
            None => {
                assert(distances@.contains_key(sinks@[index as int]));
                0
            },
        };
        keys.push(
            SinkOrder {
                criticality: routing_arc_criticality(costs, net, sink),
                minimum_ps: routing_sink_minimum(costs, net, sink),
                distance,
                sink,
            },
        );
        index = index + 1;
    }
    let ghost unsorted = keys@;
    sort_keys(&mut keys);
    let mut result: Vec<CellPinId> = Vec::new();
    let mut index: usize = 0;
    while index < keys.len()
        invariant
            index <= keys@.len(),
            result@.len() == index,
            forall|i: int| 0 <= i < index ==> #[trigger] result@[i] == keys@[i].sink,
        decreases keys@.len() - index,
    {
        result.push(keys[index].sink);
        index = index + 1;
    }
    proof {
        let pick = |key: SinkOrder| key.sink;
        assert(result@ =~= keys@.map_values(pick));
        assert(sinks@ =~= unsorted.map_values(pick));
        lemma_map_multiset(keys@, unsorted, pick);
        unsorted.to_multiset_ensures();
        keys@.to_multiset_ensures();
        assert forall|i: int| 0 <= i < keys@.len() implies #[trigger] keys@[i] == sink_order(
            net,
            costs,
            distances@,
            keys@[i].sink,
        ) by {
            assert(keys@.contains(keys@[i]));
            assert(unsorted.to_multiset().count(keys@[i]) > 0);
            assert(unsorted.contains(keys@[i]));
            let j = unsorted.index_of(keys@[i]);
            assert(unsorted[j] == keys@[i]);
        }
        assert forall|i: int, j: int| 0 <= i < j < result@.len() implies sink_order(
            net,
            costs,
            distances@,
            #[trigger] result@[i],
        ).rank() <= sink_order(net, costs, distances@, #[trigger] result@[j]).rank() by {
            assert(keys@[i].rank() <= keys@[j].rank());
        }
    }
    result
}

/// Sequences with one multiset keep one multiset under a map.
pub proof fn lemma_map_multiset<A, B>(a: Seq<A>, b: Seq<A>, f: spec_fn(A) -> B)
    requires
        a.to_multiset() == b.to_multiset(),
    ensures
        a.map_values(f).to_multiset() == b.map_values(f).to_multiset(),
    decreases a.len(),
{
    broadcast use vstd::multiset::group_multiset_axioms;

    a.to_multiset_ensures();
    b.to_multiset_ensures();
    assert(a.len() == b.len());
    if a.len() == 0 {
        assert(a.map_values(f) =~= b.map_values(f));
    } else {
        let last = a.last();
        let rest = a.drop_last();
        assert(a =~= rest.push(last));
        assert(a.contains(a[a.len() - 1]));
        assert(b.to_multiset().count(last) > 0);
        assert(b.contains(last));
        let k = b.index_of(last);
        let other = b.remove(k);
        vstd::seq_lib::to_multiset_remove(b, k);
        vstd::seq_lib::to_multiset_remove(a, a.len() - 1);
        assert(a.remove(a.len() - 1) =~= rest);
        lemma_map_multiset(rest, other, f);
        let mapped = b.map_values(f);
        vstd::seq_lib::to_multiset_remove(mapped, k);
        assert(mapped.remove(k) =~= other.map_values(f));
        mapped.to_multiset_ensures();
        assert(mapped.contains(mapped[k]));
        rest.map_values(f).to_multiset_ensures();
        assert(a.map_values(f) =~= rest.map_values(f).push(f(last)));
        assert(mapped.to_multiset().remove(f(last)).insert(f(last)) =~= mapped.to_multiset());
    }
}

/// Arrival of a route after its first hops; the route is listed from its goal back.
pub open spec fn path_arrival(
    query: RouteQuery<'_>,
    wires: Seq<WireId>,
    pips: Seq<PipId>,
    hops: int,
) -> int
    decreases hops,
{
    if hops <= 0 {
        query.tree_delays_ps@[wires.last().0 as int] as int
    } else {
        crate::cost::clip_u64(
            path_arrival(query, wires, pips, hops - 1) + query.pip_delay(pips[pips.len() - hops]),
        )
    }
}

/// Cost of one hop of a route that is listed from its goal back.
pub open spec fn path_step(
    query: RouteQuery<'_>,
    wires: Seq<WireId>,
    pips: Seq<PipId>,
    hops: int,
) -> int {
    let pip = pips[pips.len() - hops];
    let congestion = query.congestion(pip, wires[wires.len() - 1 - hops]);
    if query.has_fixed_costs() {
        step_cost(
            query.pip_delay(pip),
            query.criticality as int,
            congestion,
            query.delay_quantum_ps as int,
        )
    } else {
        transition_cost(
            path_arrival(query, wires, pips, hops - 1),
            path_arrival(query, wires, pips, hops),
            query.criticality as int,
            congestion,
            query.delay_quantum_ps as int,
        )
    }
}

/// Score of a route after its first hops; the route is listed from its goal back.
pub open spec fn path_score(
    query: RouteQuery<'_>,
    wires: Seq<WireId>,
    pips: Seq<PipId>,
    hops: int,
) -> int
    decreases hops,
{
    if hops <= 0 {
        tree_cost(
            query.tree_delays_ps@[wires.last().0 as int] as int,
            query.criticality as int,
            query.delay_quantum_ps as int,
        )
    } else {
        crate::cost::clip_u64(
            path_score(query, wires, pips, hops - 1) + path_step(query, wires, pips, hops),
        )
    }
}

/// The route is one of the device and starts on a wire with an arrival.
pub open spec fn path_fits(
    query: RouteQuery<'_>,
    wires: Seq<WireId>,
    pips: Seq<PipId>,
) -> bool {
    &&& wires.len() == pips.len() + 1
    &&& wires.last().0 < query.tree_delays_ps@.len()
    &&& forall|i: int|
        0 <= i < wires.len() ==> (#[trigger] wires[i]).0 < query.graph.device.wires@.len()
    &&& forall|i: int|
        0 <= i < pips.len() ==> (#[trigger] pips[i]).0 < query.graph.device.pips@.len()
}

/// Score of a whole route that is listed from its goal back.
pub fn route_path_score(query: &RouteQuery<'_>, path_wires: &Vec<WireId>, path_pips: &Vec<PipId>) -> (result:
    u64)
    requires
        query.wf(),
        path_fits(*query, path_wires@, path_pips@),
    ensures
        result == path_score(*query, path_wires@, path_pips@, path_pips@.len() as int),
{
    let last: usize = path_wires.len() - 1;
    assert(path_wires@[last as int] == path_wires@.last());
    let mut arrival_ps: u64 = query.tree_delays_ps[path_wires[last].0];
    let mut score: u64 = timing_tree_cost(arrival_ps, query.criticality, query.delay_quantum_ps);
    let mut hops: usize = 0;
    while hops < path_pips.len()
        invariant
            hops <= path_pips@.len(),
            last == path_pips@.len(),
            query.wf(),
            path_fits(*query, path_wires@, path_pips@),
            arrival_ps == path_arrival(*query, path_wires@, path_pips@, hops as int),
            score == path_score(*query, path_wires@, path_pips@, hops as int),
        decreases path_pips@.len() - hops,
    {
        hops = hops + 1;
        let pip = path_pips[path_pips.len() - hops];
        let wire = path_wires[last - hops];
        let pip_delay_ps: u32 = match query.costs {
            Some(costs) => costs.pip_delays_ps[pip.0],
            None => 0,
        };
        let next_arrival_ps: u64 = arrival_ps.saturating_add(pip_delay_ps as u64);
        let congestion: u64 = query.wire_congestion[wire.0] as u64
            + query.pip_congestion[pip.0] as u64;
        let step: u64 = if query.delay_quantum_ps == ROUTING_DELAY_QUANTUM_PS {
            routing_step_cost(pip_delay_ps, query.criticality, congestion, query.delay_quantum_ps)
        } else {
            routing_transition_cost(
                arrival_ps,
                next_arrival_ps,
                query.criticality,
                congestion,
                query.delay_quantum_ps,
            )
        };
        score = score.saturating_add(step);
        arrival_ps = next_arrival_ps;
    }
    score
}

/// A tree wire considered as another start of a connection.
#[derive(Clone, Copy, Debug, PartialEq, Eq, Structural)]
pub struct AlternateSource {
    /// Predicted score of a route from the wire.
    pub score: u64,
    /// Arrival at the wire.
    pub arrival_ps: u64,
    /// Distance of the wire from the goal.
    pub distance: u64,
    /// The wire.
    pub wire: WireId,
}

impl OrderedKey for AlternateSource {
    open spec fn rank(self) -> int {
        ((self.score * 0x1_0000_0000_0000_0000 + self.arrival_ps) * 0x1_0000_0000_0000_0000
            + self.distance) * 0x1_0000_0000_0000_0000 + self.wire.0
    }

    proof fn rank_is_injective(a: Self, b: Self) {
        let x = a.score * 0x1_0000_0000_0000_0000 + a.arrival_ps;
        let y = b.score * 0x1_0000_0000_0000_0000 + b.arrival_ps;
        lemma_digits(
            x * 0x1_0000_0000_0000_0000 + a.distance,
            a.wire.0 as int,
            y * 0x1_0000_0000_0000_0000 + b.distance,
            b.wire.0 as int,
            0x1_0000_0000_0000_0000,
        );
        lemma_digits(x, a.distance as int, y, b.distance as int, 0x1_0000_0000_0000_0000);
        lemma_digits(
            a.score as int,
            a.arrival_ps as int,
            b.score as int,
            b.arrival_ps as int,
            0x1_0000_0000_0000_0000,
        );
    }

    fn precedes(self, other: Self) -> (result: bool) {
        if self.score != other.score {
            self.score < other.score
        } else if self.arrival_ps != other.arrival_ps {
            self.arrival_ps < other.arrival_ps
        } else if self.distance != other.distance {
            self.distance < other.distance
        } else {
            self.wire.0 < other.wire.0
        }
    }
}

/// How a tree wire is judged as another start.
pub open spec fn alternate_source(
    search: RouteSearch,
    query: RouteQuery<'_>,
    delay_per_tile_ps: u64,
    wire: WireId,
) -> AlternateSource {
    let distance = query.metadata.wire_points@[wire.0 as int].distance(
        query.metadata.wire_points@[query.goal.0 as int],
    );
    let arrival = query.tree_delays_ps@[wire.0 as int];
    AlternateSource {
        score: crate::cost::clip_u64(
            tree_cost(arrival as int, query.criticality as int, query.delay_quantum_ps as int)
                + crate::search::remaining_estimate(
                search.estimate_base_delay_ps as int,
                delay_per_tile_ps as int,
                distance,
                query.criticality as int,
                query.delay_quantum_ps as int,
            ),
        ) as u64,
        arrival_ps: arrival,
        distance: distance as u64,
        wire,
    }
}

/// Best other start among the wires of a tree.
pub fn best_alternate_source(
    search: &RouteSearch,
    query: &RouteQuery<'_>,
    tree_wires: &OrderedSet<WireId>,
    delay_per_tile_ps: u64,
    incumbent: WireId,
) -> (result: Option<AlternateSource>)
    requires
        query.wf(),
        tree_wires.wf(),
        forall|w: WireId| #[trigger]
            tree_wires@.contains(w) ==> w.0 < query.graph.device.wires@.len() && w.0
                < query.tree_delays_ps@.len(),
    ensures
        result is None <==> forall|w: WireId| #[trigger] tree_wires@.contains(w) ==> w == incumbent,
        result matches Some(best) ==> {
            &&& tree_wires@.contains(best.wire)
            &&& best.wire != incumbent
            &&& best == alternate_source(*search, *query, delay_per_tile_ps, best.wire)
            &&& forall|w: WireId| #[trigger]
                tree_wires@.contains(w) && w != incumbent ==> best.rank() <= alternate_source(
                    *search,
                    *query,
                    delay_per_tile_ps,
                    w,
                ).rank()
        },
{
    let goal_point = query.metadata.wire_points[query.goal.0];
    let mut best: Option<AlternateSource> = None;
    let mut index: usize = 0;
    while index < tree_wires.len()
        invariant
            index <= tree_wires.ordered().len(),
            query.wf(),
            tree_wires.wf(),
            goal_point == query.metadata.wire_points@[query.goal.0 as int],
            forall|w: WireId| #[trigger]
                tree_wires@.contains(w) ==> w.0 < query.graph.device.wires@.len() && w.0
                    < query.tree_delays_ps@.len(),
            best is None ==> forall|i: int|
                0 <= i < index ==> #[trigger] tree_wires.ordered()[i] == incumbent,
            best matches Some(found) ==> {
                &&& tree_wires@.contains(found.wire)
                &&& found.wire != incumbent
                &&& found == alternate_source(*search, *query, delay_per_tile_ps, found.wire)
                &&& forall|i: int|
                    0 <= i < index && #[trigger] tree_wires.ordered()[i] != incumbent
                        ==> found.rank() <= alternate_source(
                        *search,
                        *query,
                        delay_per_tile_ps,
                        tree_wires.ordered()[i],
                    ).rank()
            },
        decreases tree_wires.ordered().len() - index,
    {
        let wire = tree_wires.at(index);
        if wire != incumbent {
            let point = query.metadata.wire_points[wire.0];
            let arrival_ps: u64 = query.tree_delays_ps[wire.0];
            let score: u64 = timing_tree_cost(
                arrival_ps,
                query.criticality,
                query.delay_quantum_ps,
            ).saturating_add(
                search.remaining_cost_estimate_with_delay(
                    point,
                    goal_point,
                    query.criticality,
                    query.delay_quantum_ps,
                    delay_per_tile_ps,
                ),
            );
            let candidate = AlternateSource {
                score,
                arrival_ps,
                distance: point.manhattan(goal_point),
                wire,
            };
            assert(candidate == alternate_source(*search, *query, delay_per_tile_ps, wire));
            best = match best {
                None => Some(candidate),
                Some(found) => if candidate.precedes(found) {
                    Some(candidate)
                } else {
                    Some(found)
                },
            };
        }
        index = index + 1;
    }
    proof {
        assert forall|w: WireId| #[trigger] tree_wires@.contains(w) implies exists|i: int|
            0 <= i < index && #[trigger] tree_wires.ordered()[i] == w by {
            tree_wires.membership(w);
            let i = tree_wires.ordered().index_of(w);
            assert(tree_wires.ordered()[i] == w);
        }
    }
    best
}

} // verus!
