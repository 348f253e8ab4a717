//! Connections that a legal routing may still improve, in the order of their turn.

use std::sync::Arc;

use vstd::prelude::*;

use crate::cost::{
    clip_u64, div_ceil, hop_bias, lemma_ceil_div, saturating_product, timing_tree_cost, tree_cost,
    ROUTING_CRITICALITY_SCALE, ROUTING_DELAY_QUANTUM_PS,
};
use crate::device::UnifiedGraph;
use crate::model::{Connection, NetId, PipId};
use crate::net_growth::{costs_fit, net_quantum};
use crate::net_routing::{arc_fits, driver_wire};
use crate::ordered::{lemma_digits, OrderedKey, OrderedMap, OrderedSet};
use crate::placement::{PinWireCache, Placement};
use crate::route::{NetRoute, RouteArc};
use crate::routing_constraints::RoutingConstraints;
use crate::routing_costs::{arc_criticality, routing_arc_criticality, RoutingCosts};
use crate::validation::route_fits;
use crate::victims::{is_sink_locked, sink_locked};

verus! {

/// A connection that may improve, with its criticality and what its arc costs.
#[derive(Clone, Copy, Debug, PartialEq, Eq, Structural)]
pub struct LegalRoutePolishCandidate {
    /// Net and sink.
    pub connection: Connection,
    /// Criticality of the connection.
    pub criticality: u64,
    /// Cost of its arc without congestion.
    pub realized_cost: u64,
}

/// The costliest comes first, then the most critical, then the lowest net and sink.
impl OrderedKey for LegalRoutePolishCandidate {
    open spec fn rank(self) -> int {
        (((u64::MAX - self.realized_cost) * 0x1_0000_0000_0000_0000 + (u64::MAX
            - self.criticality)) * 0x1_0000_0000_0000_0000 + self.connection.net.0)
            * 0x1_0000_0000_0000_0000 + self.connection.sink.0
    }

    proof fn rank_is_injective(a: Self, b: Self) {
        let x = (u64::MAX - a.realized_cost) * 0x1_0000_0000_0000_0000 + (u64::MAX - a.criticality);
        let y = (u64::MAX - b.realized_cost) * 0x1_0000_0000_0000_0000 + (u64::MAX - b.criticality);
        lemma_digits(
            x * 0x1_0000_0000_0000_0000 + a.connection.net.0,
            a.connection.sink.0 as int,
            y * 0x1_0000_0000_0000_0000 + b.connection.net.0,
            b.connection.sink.0 as int,
            0x1_0000_0000_0000_0000,
        );
        lemma_digits(
            x,
            a.connection.net.0 as int,
            y,
            b.connection.net.0 as int,
            0x1_0000_0000_0000_0000,
        );
        lemma_digits(
            u64::MAX - a.realized_cost,
            u64::MAX - a.criticality,
            u64::MAX - b.realized_cost,
            u64::MAX - b.criticality,
            0x1_0000_0000_0000_0000,
        );
    }

    fn precedes(self, other: Self) -> (result: bool) {
        if self.realized_cost != other.realized_cost {
            self.realized_cost > other.realized_cost
        } else if self.criticality != other.criticality {
            self.criticality > other.criticality
        } else {
            self.connection.precedes(other.connection)
        }
    }
}

/// Delay of a sequence of PIPs.
pub open spec fn unloaded_delay(costs: &RoutingCosts, pips: Seq<PipId>) -> int
    decreases pips.len(),
{
    if pips.len() == 0 {
        0
    } else {
        clip_u64(
            unloaded_delay(costs, pips.drop_last())
                + costs.pip_delays_ps@[pips.last().0 as int],
        )
    }
}

/// Cost of a sequence of PIPs without congestion.
pub open spec fn unloaded_cost(
    costs: &RoutingCosts,
    net: NetId,
    pips: Seq<PipId>,
    criticality: u64,
) -> int {
    let quantum = net_quantum(Some(costs), net) as int;
    clip_u64(
        tree_cost(unloaded_delay(costs, pips), criticality as int, quantum) + clip_u64(
            hop_bias(criticality as int, quantum) * pips.len(),
        ),
    )
}

/// Delays are not negative.
proof fn lemma_unloaded_delay(costs: &RoutingCosts, pips: Seq<PipId>)
    ensures
        unloaded_delay(costs, pips) >= 0,
    decreases pips.len(),
{
    if pips.len() > 0 {
        lemma_unloaded_delay(costs, pips.drop_last());
    }
}

/// Costs are not negative.
proof fn lemma_unloaded_cost(
    costs: &RoutingCosts,
    net: NetId,
    pips: Seq<PipId>,
    criticality: u64,
)
    requires
        criticality <= ROUTING_CRITICALITY_SCALE,
        0 < costs.detailed_delay_quantum_ps <= ROUTING_DELAY_QUANTUM_PS,
    ensures
        0 <= unloaded_cost(costs, net, pips, criticality) <= u64::MAX,
{
    let quantum = net_quantum(Some(costs), net) as int;
    lemma_unloaded_delay(costs, pips);
    lemma_ceil_div(unloaded_delay(costs, pips), quantum);
    lemma_ceil_div(
        (ROUTING_CRITICALITY_SCALE - criticality) * ROUTING_DELAY_QUANTUM_PS,
        ROUTING_CRITICALITY_SCALE * quantum,
    );
    let bias = hop_bias(criticality as int, quantum);
    assert(bias * pips.len() >= 0) by (nonlinear_arith)
        requires
            bias >= 0,
    ;
}

/// Cost of an arc without congestion.
pub fn unloaded_arc_cost(
    net: NetId,
    arc: &RouteArc,
    costs: &RoutingCosts,
    criticality: u64,
) -> (result: u64)
    requires
        costs.wf(),
        criticality <= ROUTING_CRITICALITY_SCALE,
        0 < costs.detailed_delay_quantum_ps <= ROUTING_DELAY_QUANTUM_PS,
        forall|k: int|
            0 <= k < arc.pips@.len() ==> (#[trigger] arc.pips@[k]).0
                < costs.pip_delays_ps@.len(),
    ensures
        result == unloaded_cost(costs, net, arc.pips@, criticality),
{
    let quantum: u64 = if costs.detailed_timing_nets.contains(net) {
        costs.detailed_delay_quantum_ps
    } else {
        ROUTING_DELAY_QUANTUM_PS
    };
    let mut arrival_ps: u64 = 0;
    let mut index: usize = 0;
    while index < arc.pips.len()
        invariant
            index <= arc.pips@.len(),
            forall|k: int|
                0 <= k < arc.pips@.len() ==> (#[trigger] arc.pips@[k]).0
                    < costs.pip_delays_ps@.len(),
            arrival_ps == unloaded_delay(costs, arc.pips@.take(index as int)),
        decreases arc.pips@.len() - index,
    {
        let pip = arc.pips[index];
        assert(arc.pips@[index as int].0 < costs.pip_delays_ps@.len());
        arrival_ps = arrival_ps.saturating_add(costs.pip_delays_ps[pip.0] as u64);
        proof {
            let longer = arc.pips@.take(index + 1);
            assert(longer.drop_last() =~= arc.pips@.take(index as int));
            assert(longer.last() == pip);
        }
        index = index + 1;
    }
    assert(arc.pips@.take(index as int) =~= arc.pips@);
    let share_of_hop: u64 = div_ceil(
        (ROUTING_CRITICALITY_SCALE - criticality) * ROUTING_DELAY_QUANTUM_PS,
        ROUTING_CRITICALITY_SCALE * quantum,
    );
    let bias: u64 = saturating_product(share_of_hop, arc.pips.len() as u64);
    timing_tree_cost(arrival_ps, criticality, quantum).saturating_add(bias)
}

/// The first arc that leads to the sink.
pub open spec fn first_arc_at(route: NetRoute, sink: crate::model::CellPinId, at: int) -> bool {
    &&& 0 <= at < route.arcs@.len()
    &&& route.arcs@[at].sink == Some(sink)
    &&& forall|j: int| 0 <= j < at ==> (#[trigger] route.arcs@[j]).sink != Some(sink)
}

/// PIPs of the first arc that leads to the sink.
pub open spec fn pips_to(route: NetRoute, sink: crate::model::CellPinId) -> Seq<PipId> {
    route.arcs@[choose|at: int| first_arc_at(route, sink, at)].pips@
}

/// Inputs of polishing.
#[derive(Clone, Copy)]
pub struct Polisher<'a> {
    /// Design and device.
    pub graph: UnifiedGraph<'a>,
    /// Placement that is routed.
    pub placement: &'a Placement,
    /// Wires of the placed pins.
    pub pin_wires: &'a PinWireCache,
    /// Immutable routes and forbidden PIPs.
    pub constraints: &'a RoutingConstraints,
    /// Delays and criticalities.
    pub costs: &'a RoutingCosts,
}

impl<'a> Polisher<'a> {
    /// The inputs fit each other.
    pub open spec fn wf(&self) -> bool {
        &&& self.graph.wf()
        &&& self.placement.fits(self.graph.device)
        &&& self.pin_wires.holds(self.graph, self.placement)
        &&& self.constraints.wf()
        &&& costs_fit(self.graph.device, self.costs)
    }

    /// The route of a slot is one of its net.
    pub open spec fn slot_ok(&self, index: int, slot: Option<Arc<NetRoute>>) -> bool {
        slot matches Some(route) ==> route_fits(
            self.graph,
            self.placement,
            self.constraints,
            NetId(index as usize),
            *route,
        )
    }

    /// There is one slot for each net.
    pub open spec fn slots_ok(&self, routes: Seq<Option<Arc<NetRoute>>>) -> bool {
        &&& routes.len() == self.graph.design.nets@.len()
        &&& forall|i: int| 0 <= i < routes.len() ==> self.slot_ok(i, #[trigger] routes[i])
    }

    /// Criticality of a connection.
    pub open spec fn criticality(&self, connection: Connection) -> u64 {
        arc_criticality(Some(self.costs), connection.net, connection.sink)
    }

    /// What the arc to the sink costs.
    pub open spec fn realized(&self, connection: Connection, route: NetRoute) -> int {
        unloaded_cost(
            self.costs,
            connection.net,
            pips_to(route, connection.sink),
            self.criticality(connection),
        )
    }

    /// The connection is routed, critical, and not immutable.
    pub open spec fn may_improve(
        &self,
        connection: Connection,
        routes: Seq<Option<Arc<NetRoute>>>,
    ) -> bool {
        &&& connection.net.0 < routes.len()
        &&& routes[connection.net.0 as int] matches Some(route) && route.reaches(connection.sink)
        &&& self.criticality(connection) > 1
        &&& !sink_locked(self.constraints, connection.net, Some(connection.sink))
    }

    /// The connection with its criticality and what its arc costs.
    pub open spec fn ranked(
        &self,
        connection: Connection,
        routes: Seq<Option<Arc<NetRoute>>>,
    ) -> LegalRoutePolishCandidate {
        LegalRoutePolishCandidate {
            connection,
            criticality: self.criticality(connection),
            realized_cost: self.realized(
                connection,
                *(routes[connection.net.0 as int]->0),
            ) as u64,
        }
    }

    /// Criticalities are in range.
    pub proof fn lemma_criticality(&self, connection: Connection)
        requires
            self.wf(),
        ensures
            self.criticality(connection) <= ROUTING_CRITICALITY_SCALE,
    {
        let table = self.costs.sink_criticalities@;
        if table.contains_key(connection) {
            assert(table[connection] <= ROUTING_CRITICALITY_SCALE);
        } else if self.costs.net_criticalities@.contains_key(connection.net) {
            assert(self.costs.net_criticalities@[connection.net] <= ROUTING_CRITICALITY_SCALE);
        }
    }

    /// What an arc costs fits its machine integer.
    pub proof fn lemma_realized(&self, connection: Connection, route: &NetRoute)
        requires
            self.wf(),
        ensures
            0 <= self.realized(connection, *route) <= u64::MAX,
    {
        self.lemma_criticality(connection);
        lemma_unloaded_cost(
            self.costs,
            connection.net,
            pips_to(*route, connection.sink),
            self.criticality(connection),
        );
    }

    /// The arcs of a fitting route take PIPs of the device.
    pub proof fn lemma_arc_known(&self, net: NetId, route: NetRoute, at: int)
        requires
            self.wf(),
            route_fits(self.graph, self.placement, self.constraints, net, route),
            0 <= at < route.arcs@.len(),
        ensures
            forall|k: int|
                0 <= k < route.arcs@[at].pips@.len() ==> (#[trigger] route.arcs@[at].pips@[k]).0
                    < self.costs.pip_delays_ps@.len(),
    {
        let driver = driver_wire(self.graph, self.placement, net)->0;
        let arc = route.arcs@[at];
        assert(arc_fits(self.graph, self.placement, net, driver, arc));
        assert forall|k: int| 0 <= k < arc.pips@.len() implies (#[trigger] arc.pips@[k]).0
            < self.costs.pip_delays_ps@.len() by {
            assert(self.graph.device.leads(arc.wires@[k], arc.pips@[k], arc.wires@[k + 1]));
        }
    }

    /// What the arc to the sink of a connection costs.
    pub(crate) fn price(&self, connection: Connection, route: &NetRoute) -> (result: Option<u64>)
        requires
            self.wf(),
            route_fits(self.graph, self.placement, self.constraints, connection.net, *route),
        ensures
            result is Some <==> route.reaches(connection.sink),
            result matches Some(cost) ==> cost == self.realized(connection, *route),
    {
        match route.arc(connection.sink) {
            None => None,
            Some(arc) => {
                proof {
                    let at = choose|at: int|
                        0 <= at < route.arcs@.len() && #[trigger] route.arcs@[at] == *arc
                            && arc.sink == Some(connection.sink) && forall|j: int|
                            0 <= j < at ==> (#[trigger] route.arcs@[j]).sink != Some(
                                connection.sink,
                            );
                    self.lemma_arc_known(connection.net, *route, at);
                    assert(first_arc_at(*route, connection.sink, at));
                    let other = choose|other: int| first_arc_at(*route, connection.sink, other);
                    assert(first_arc_at(*route, connection.sink, other));
                    assert(other == at);
                    self.lemma_criticality(connection);
                }
                let criticality: u64 = routing_arc_criticality(
                    Some(self.costs),
                    connection.net,
                    connection.sink,
                );
                Some(unloaded_arc_cost(connection.net, arc, self.costs, criticality))
            },
        }
    }

    /// The connection with its criticality and what its arc costs, where it may improve.
    pub fn legal_route_polish_candidate(
        &self,
        connection: Connection,
        routes: &Vec<Option<Arc<NetRoute>>>,
    ) -> (result: Option<LegalRoutePolishCandidate>)
        requires
            self.wf(),
            self.slots_ok(routes@),
        ensures
            result == if self.may_improve(connection, routes@) {
                Some(self.ranked(connection, routes@))
            } else {
                None
            },
    {
        if connection.net.0 >= routes.len() {
            return None;
        }
        let route: &NetRoute = match &routes[connection.net.0] {
            None => return None,
            Some(route) => route,
        };
        assert(self.slot_ok(connection.net.0 as int, routes@[connection.net.0 as int]));
        let criticality: u64 = routing_arc_criticality(
            Some(self.costs),
            connection.net,
            connection.sink,
        );
        match self.price(connection, route) {
            None => None,
            Some(realized_cost) => if criticality > 1 && !is_sink_locked(
                self.constraints,
                connection.net,
                Some(connection.sink),
            ) {
                Some(LegalRoutePolishCandidate { connection, criticality, realized_cost })
            } else {
                None
            },
        }
    }
}

/// The connections whose turn is to come.
pub struct PolishQueue {
    /// In the order of their turn.
    pub queue: OrderedSet<LegalRoutePolishCandidate>,
    /// By net and sink.
    pub pending: OrderedMap<Connection, LegalRoutePolishCandidate>,
}

impl PolishQueue {
    /// Both hold the same connections, each of them once.
    pub open spec fn wf(&self) -> bool {
        &&& self.queue.wf()
        &&& self.pending.wf()
        &&& forall|c: Connection| #[trigger]
            self.pending@.contains_key(c) ==> self.pending@[c].connection == c
                && self.queue@.contains(self.pending@[c])
        &&& forall|e: LegalRoutePolishCandidate| #[trigger]
            self.queue@.contains(e) ==> self.pending@.contains_key(e.connection)
                && self.pending@[e.connection] == e
    }

    /// A queue of none.
    pub fn new() -> (result: Self)
        ensures
            result.wf(),
            result.pending@ == Map::<Connection, LegalRoutePolishCandidate>::empty(),
    {
        PolishQueue { queue: OrderedSet::new(), pending: OrderedMap::new() }
    }

    /// Puts a connection into the queue, or takes it out where it cannot
    /// improve; whether it is new there.
    pub fn enqueue_legal_route_polish_candidate(
        &mut self,
        polisher: &Polisher<'_>,
        connection: Connection,
        routes: &Vec<Option<Arc<NetRoute>>>,
    ) -> (result: bool)
        requires
            old(self).wf(),
            polisher.wf(),
            polisher.slots_ok(routes@),
        ensures
            final(self).wf(),
            final(self).pending@ == if polisher.may_improve(connection, routes@) {
                old(self).pending@.insert(connection, polisher.ranked(connection, routes@))
            } else {
                old(self).pending@.remove(connection)
            },
            result == (polisher.may_improve(connection, routes@)
                && !old(self).pending@.contains_key(connection)),
    {
        let previous = self.pending.remove(connection);
        if let Some(entry) = previous {
            self.queue.remove(entry);
        }
        let known: bool = previous.is_some();
        match polisher.legal_route_polish_candidate(connection, routes) {
            None => false,
            Some(entry) => {
                self.queue.insert(entry);
                self.pending.insert(connection, entry);
                assert(self.pending@ =~= old(self).pending@.insert(connection, entry));
                !known
            },
        }
    }

    /// Takes out the connection whose turn it is.
    pub fn pop_first(&mut self) -> (result: Option<LegalRoutePolishCandidate>)
        requires
            old(self).wf(),
        ensures
            final(self).wf(),
            match result {
                None => old(self).pending@ == Map::<
                    Connection,
                    LegalRoutePolishCandidate,
                >::empty() && *final(self) == *old(self),
                Some(entry) => {
                    &&& old(self).pending@.contains_key(entry.connection)
                    &&& old(self).pending@[entry.connection] == entry
                    &&& forall|c: Connection| #[trigger]
                        old(self).pending@.contains_key(c) ==> entry.rank()
                            <= old(self).pending@[c].rank()
                    &&& final(self).pending@ == old(self).pending@.remove(entry.connection)
                },
            },
    {
        if self.queue.is_empty() {
            proof {
                assert forall|c: Connection| !self.pending@.contains_key(c) by {
                    if self.pending@.contains_key(c) {
                        assert(self.queue@.contains(self.pending@[c]));
                    }
                }
                assert(self.pending@ =~= Map::empty());
            }
            return None;
        }
        let entry = self.queue.at(0);
        proof {
            assert forall|c: Connection| #[trigger] self.pending@.contains_key(c) implies entry.rank()
                <= self.pending@[c].rank() by {
                let other = self.pending@[c];
                assert(self.queue@.contains(other));
                self.queue.membership(other);
                let at = self.queue.ordered().index_of(other);
                assert(self.queue.ordered()[at] == other);
                if at > 0 {
                    assert(self.queue.ordered()[0].rank() < self.queue.ordered()[at].rank());
                }
            }
        }
        self.queue.remove(entry);
        self.pending.remove(entry.connection);
        Some(entry)
    }
}

} // verus!
