//! Improvement of a legal routing, one connection at a time.

use std::sync::Arc;

use vstd::prelude::*;

use crate::cost::clip_u64;
use crate::device::UnifiedGraph;
use crate::model::{Connection, NetId, PipId, WireId};
use crate::negotiate::within_capacity;
use crate::net_growth::costs_fit;
use crate::net_state::lemma_arcs_slot_fits;
use crate::occupancy::{as_count, pip_sets, wire_sets};
use crate::ordered::{OrderedKey, OrderedSet};
use crate::placement::{PinWireCache, Placement};
use crate::polish_attempt::{frees_pip, frees_wire, is_priced_room, PolishAttempt, PolishEvent};
use crate::polish_queue::{PolishQueue, Polisher};
use crate::polish_subscriptions::{met_any, met_pip, met_wire, LegalRoutePolishSubscriptions};
use crate::route::NetRoute;
use crate::routing_constraints::RoutingConstraints;
use crate::routing_costs::RoutingCosts;
use crate::search::HardRoutingBlockers;
use crate::workspace::{slot_fits, RoutingWorkspace};

verus! {

/// What polishing did.
#[derive(Clone, Copy, Debug, PartialEq, Eq, Structural)]
pub struct LegalRoutePolishMetrics {
    /// Runs of the queue, each to its end.
    pub passes: usize,
    /// Connections that could improve at the start.
    pub initial_candidates: usize,
    /// Searches.
    pub attempts: usize,
    /// Connections that came into the queue again.
    pub wakeups: usize,
    /// Searches that found a cheaper arc.
    pub improvements: usize,
    /// By how much the arcs became cheaper.
    pub objective_reduction: u64,
}

/// Where polishing stands.
pub struct PolishPoint {
    /// The routes.
    pub routes: Seq<Option<Arc<NetRoute>>>,
    /// The connections whose turn is to come.
    pub pending: Set<Connection>,
    /// The full resources that each connection met in its last search.
    pub met: Map<Connection, HardRoutingBlockers>,
    /// What was done so far.
    pub metrics: LegalRoutePolishMetrics,
}

/// The count, or the largest one that can be held.
pub open spec fn clip_count(count: int) -> usize {
    if count > usize::MAX {
        usize::MAX
    } else {
        count as usize
    }
}

impl<'a> Polisher<'a> {
    /// The connections that may improve.
    pub open spec fn asked(&self, routes: Seq<Option<Arc<NetRoute>>>) -> Set<Connection> {
        Set::new(|c: Connection| self.may_improve(c, routes))
    }

    /// Every connection that may improve is to have its turn.
    pub open spec fn is_start(
        &self,
        routes: Seq<Option<Arc<NetRoute>>>,
        point: PolishPoint,
    ) -> bool {
        &&& point.routes == routes
        &&& point.pending == self.asked(routes)
        &&& point.met == Map::<Connection, HardRoutingBlockers>::empty()
        &&& point.metrics == LegalRoutePolishMetrics {
            passes: 1,
            initial_candidates: self.asked(routes).len() as usize,
            attempts: 0,
            wakeups: 0,
            improvements: 0,
            objective_reduction: 0,
        }
    }

    /// The connection met a resource that the exchange of routes frees.
    pub open spec fn met_freed(
        &self,
        met: Map<Connection, HardRoutingBlockers>,
        before: Seq<Option<Arc<NetRoute>>>,
        after: Seq<Option<Arc<NetRoute>>>,
        connection: Connection,
    ) -> bool {
        ||| exists|w: WireId| #[trigger]
            frees_wire(self.graph.device, before, after, w) && met_wire(met, w, connection)
        ||| exists|p: PipId| #[trigger]
            frees_pip(self.graph.device, before, after, p) && met_pip(met, p, connection)
    }

    /// An improvement wakes the connections that met what it frees, and the
    /// others of its net.
    pub open spec fn wakes(
        &self,
        asked: Set<Connection>,
        before: PolishPoint,
        event: PolishEvent,
        after: PolishPoint,
        connection: Connection,
    ) -> bool {
        self.is_improvement(before.routes, event) && (self.met_freed(
            after.met,
            before.routes,
            after.routes,
            connection,
        ) || (asked.contains(connection) && connection.net == event.connection.net && connection
            != event.connection))
    }

    /// What was done after one more attempt.
    pub open spec fn counted(
        &self,
        before: PolishPoint,
        event: PolishEvent,
        after: PolishPoint,
    ) -> LegalRoutePolishMetrics {
        let net = event.connection.net.0 as int;
        let improves = self.is_improvement(before.routes, event);
        let woken = after.pending.len() - before.pending.remove(event.connection).len();
        LegalRoutePolishMetrics {
            passes: before.metrics.passes,
            initial_candidates: before.metrics.initial_candidates,
            attempts: clip_count(before.metrics.attempts + 1),
            wakeups: clip_count(before.metrics.wakeups + woken),
            improvements: clip_count(before.metrics.improvements + as_count(improves)),
            objective_reduction: if improves {
                clip_u64(
                    before.metrics.objective_reduction + (self.realized(
                        event.connection,
                        *(before.routes[net]->0),
                    ) - self.realized(event.connection, event.outcome->0)),
                ) as u64
            } else {
                before.metrics.objective_reduction
            },
        }
    }

    /// The costliest connection of the queue has its turn.
    pub open spec fn is_step(
        &self,
        base: RoutingWorkspace,
        asked: Set<Connection>,
        before: PolishPoint,
        event: PolishEvent,
        after: PolishPoint,
    ) -> bool {
        let connection = event.connection;
        &&& before.pending.contains(connection)
        &&& forall|c: Connection| #[trigger]
            before.pending.contains(c) ==> self.ranked(connection, before.routes).rank()
                <= self.ranked(c, before.routes).rank()
        &&& self.is_search(base, before.routes, event)
        &&& self.settles(before.routes, event, after.routes)
        &&& after.met == before.met.insert(connection, event.blockers)
        &&& forall|c: Connection| #[trigger]
            after.pending.contains(c) <==> (before.pending.contains(c) && c != connection)
                || self.wakes(asked, before, event, after, c)
        &&& after.metrics == self.counted(before, event, after)
    }

    /// One step of the course.
    pub open spec fn is_step_at(
        &self,
        base: RoutingWorkspace,
        routes: Seq<Option<Arc<NetRoute>>>,
        points: Seq<PolishPoint>,
        events: Seq<PolishEvent>,
        at: int,
    ) -> bool {
        self.is_step(base, self.asked(routes), points[at], events[at], points[at + 1])
    }

    /// The course of polishing from the routes on.
    pub open spec fn is_course(
        &self,
        base: RoutingWorkspace,
        routes: Seq<Option<Arc<NetRoute>>>,
        points: Seq<PolishPoint>,
        events: Seq<PolishEvent>,
    ) -> bool {
        &&& points.len() == events.len() + 1
        &&& self.is_start(routes, points[0])
        &&& forall|i: int|
            0 <= i < events.len() ==> #[trigger] self.is_step_at(base, routes, points, events, i)
    }

    /// Polishing goes on until no connection has a turn to come, and ends with
    /// these routes.
    pub open spec fn polishes(
        &self,
        base: RoutingWorkspace,
        before: Seq<Option<Arc<NetRoute>>>,
        after: Seq<Option<Arc<NetRoute>>>,
        metrics: LegalRoutePolishMetrics,
    ) -> bool {
        exists|points: Seq<PolishPoint>, events: Seq<PolishEvent>|
            {
                &&& #[trigger] self.is_course(base, before, points, events)
                &&& points.last().pending == Set::<Connection>::empty()
                &&& points.last().routes == after
                &&& points.last().metrics == metrics
            }
    }

    /// No connection that could improve is lost or became costlier.
    pub open spec fn never_costlier(
        &self,
        before: Seq<Option<Arc<NetRoute>>>,
        after: Seq<Option<Arc<NetRoute>>>,
    ) -> bool {
        forall|c: Connection| #[trigger]
            self.may_improve(c, before) ==> self.may_improve(c, after) && self.ranked(
                c,
                after,
            ).realized_cost <= self.ranked(c, before).realized_cost
    }

    /// Nets without a connection that could improve keep their routes.
    pub open spec fn others_kept(
        &self,
        before: Seq<Option<Arc<NetRoute>>>,
        after: Seq<Option<Arc<NetRoute>>>,
    ) -> bool {
        &&& after.len() == before.len()
        &&& forall|i: int|
            0 <= i < before.len() && !self.net_asked(before, i) ==> #[trigger] after[i]
                == before[i]
    }

    /// Some connection of the net may improve.
    pub open spec fn net_asked(&self, routes: Seq<Option<Arc<NetRoute>>>, index: int) -> bool {
        exists|c: Connection| #[trigger] self.may_improve(c, routes) && c.net.0 == index
    }

    /// One more step makes a longer course.
    proof fn lemma_course_grows(
        &self,
        base: RoutingWorkspace,
        routes: Seq<Option<Arc<NetRoute>>>,
        points: Seq<PolishPoint>,
        events: Seq<PolishEvent>,
        event: PolishEvent,
        next: PolishPoint,
    )
        requires
            self.is_course(base, routes, points, events),
            self.is_step(base, self.asked(routes), points.last(), event, next),
        ensures
            self.is_course(base, routes, points.push(next), events.push(event)),
    {
        let more_points = points.push(next);
        let more_events = events.push(event);
        assert forall|i: int| 0 <= i < more_events.len() implies #[trigger] self.is_step_at(
            base,
            routes,
            more_points,
            more_events,
            i,
        ) by {
            if i < events.len() {
                assert(self.is_step_at(base, routes, points, events, i));
                assert(more_points[i] == points[i] && more_points[i + 1] == points[i + 1]);
                assert(more_events[i] == events[i]);
            } else {
                assert(more_points[i] == points.last());
            }
        }
    }

    /// What the connections of a list cost together.
    spec fn total_cost(
        &self,
        list: Seq<Connection>,
        routes: Seq<Option<Arc<NetRoute>>>,
    ) -> nat
        decreases list.len(),
    {
        if list.len() == 0 {
            0
        } else {
            self.total_cost(list.drop_last(), routes) + self.ranked(
                list.last(),
                routes,
            ).realized_cost as nat
        }
    }

    /// An arc that becomes cheaper lowers the total.
    proof fn lemma_total_falls(
        &self,
        list: Seq<Connection>,
        connection: Connection,
        before: Seq<Option<Arc<NetRoute>>>,
        after: Seq<Option<Arc<NetRoute>>>,
    )
        requires
            list.no_duplicates(),
            forall|i: int|
                0 <= i < list.len() && list[i] != connection ==> self.ranked(
                    #[trigger] list[i],
                    after,
                ).realized_cost == self.ranked(list[i], before).realized_cost,
            self.ranked(connection, after).realized_cost < self.ranked(
                connection,
                before,
            ).realized_cost,
        ensures
            self.total_cost(list, after) <= self.total_cost(list, before),
            list.contains(connection) ==> self.total_cost(list, after) < self.total_cost(
                list,
                before,
            ),
        decreases list.len(),
    {
        if list.len() > 0 {
            let rest = list.drop_last();
            assert forall|i: int| 0 <= i < rest.len() && rest[i] != connection implies self.ranked(
                #[trigger] rest[i],
                after,
            ).realized_cost == self.ranked(rest[i], before).realized_cost by {
                assert(rest[i] == list[i]);
            }
            self.lemma_total_falls(rest, connection, before, after);
            let last = list[list.len() - 1];
            if list.contains(connection) && last != connection {
                let k = list.index_of(connection);
                assert(rest[k] == connection);
            }
        }
    }

    /// Collects the connections of one net that may improve.
    fn collect_net(
        &self,
        index: usize,
        routes: &Vec<Option<Arc<NetRoute>>>,
        asked: &mut OrderedSet<Connection>,
    )
        requires
            self.wf(),
            self.slots_ok(routes@),
            index < routes@.len(),
            old(asked).wf(),
        ensures
            final(asked).wf(),
            forall|c: Connection| #[trigger]
                final(asked)@.contains(c) <==> old(asked)@.contains(c) || (c.net.0 == index
                    && self.may_improve(c, routes@)),
    {
        if let Some(route) = &routes[index] {
            let mut at: usize = 0;
            while at < route.arcs.len()
                invariant
                    self.wf(),
                    self.slots_ok(routes@),
                    index < routes@.len(),
                    routes@[index as int] == Some(*route),
                    at <= route.arcs@.len(),
                    asked.wf(),
                    forall|c: Connection| #[trigger]
                        asked@.contains(c) ==> old(asked)@.contains(c) || (c.net.0 == index
                            && self.may_improve(c, routes@)),
                    forall|c: Connection| #[trigger]
                        old(asked)@.contains(c) ==> asked@.contains(c),
                    forall|k: int, c: Connection|
                        0 <= k < at && (#[trigger] route.arcs@[k]).sink == Some(c.sink) && c.net.0
                            == index && #[trigger] self.may_improve(c, routes@)
                            ==> asked@.contains(c),
                decreases route.arcs@.len() - at,
            {
                if let Some(sink) = route.arcs[at].sink {
                    let connection = Connection { net: NetId(index), sink };
                    if self.legal_route_polish_candidate(connection, routes).is_some() {
                        asked.insert(connection);
                    }
                }
                at = at + 1;
            }
        }
        proof {
            assert forall|c: Connection| c.net.0 == index && #[trigger] self.may_improve(
                c,
                routes@,
            ) implies asked@.contains(c) by {
                let route = routes@[index as int]->0;
                let k = choose|k: int|
                    0 <= k < route.arcs@.len() && (#[trigger] route.arcs@[k]).sink == Some(c.sink);
                assert(route.arcs@[k].sink == Some(c.sink));
            }
        }
    }

    /// Collects the connections that may improve.
    fn collect_asked(&self, routes: &Vec<Option<Arc<NetRoute>>>) -> (result: OrderedSet<Connection>)
        requires
            self.wf(),
            self.slots_ok(routes@),
        ensures
            result.wf(),
            result@ == self.asked(routes@),
    {
        let mut asked: OrderedSet<Connection> = OrderedSet::new();
        let mut index: usize = 0;
        while index < routes.len()
            invariant
                self.wf(),
                self.slots_ok(routes@),
                index <= routes@.len(),
                asked.wf(),
                forall|c: Connection| #[trigger]
                    asked@.contains(c) <==> c.net.0 < index && self.may_improve(c, routes@),
            decreases routes@.len() - index,
        {
            self.collect_net(index, routes, &mut asked);
            index = index + 1;
        }
        assert(asked@ =~= self.asked(routes@));
        asked
    }

    /// The queue holds these connections, each with its rank.
    spec fn queues(
        &self,
        queue: PolishQueue,
        routes: Seq<Option<Arc<NetRoute>>>,
        pending: Set<Connection>,
    ) -> bool {
        &&& queue.wf()
        &&& queue.pending@.dom() == pending
        &&& forall|c: Connection| #[trigger]
            queue.pending@.contains_key(c) ==> self.may_improve(c, routes)
                && queue.pending@[c] == self.ranked(c, routes)
    }

    /// Puts connections into the queue.
    fn enqueue_all(
        &self,
        list: &[Connection],
        routes: &Vec<Option<Arc<NetRoute>>>,
        queue: &mut PolishQueue,
        Ghost(pending): Ghost<Set<Connection>>,
    )
        requires
            self.wf(),
            self.slots_ok(routes@),
            self.queues(*old(queue), routes@, pending),
            forall|i: int|
                0 <= i < list@.len() ==> self.may_improve(#[trigger] list@[i], routes@),
        ensures
            self.queues(*final(queue), routes@, pending.union(list@.to_set())),
    {
        let mut index: usize = 0;
        proof {
            assert(pending.union(list@.take(0).to_set()) =~= pending);
        }
        while index < list.len()
            invariant
                index <= list@.len(),
                self.wf(),
                self.slots_ok(routes@),
                forall|i: int|
                    0 <= i < list@.len() ==> self.may_improve(#[trigger] list@[i], routes@),
                self.queues(*queue, routes@, pending.union(list@.take(index as int).to_set())),
            decreases list@.len() - index,
        {
            let connection = list[index];
            let ghost shorter = pending.union(list@.take(index as int).to_set());
            assert(self.may_improve(list@[index as int], routes@));
            queue.enqueue_legal_route_polish_candidate(self, connection, routes);
            proof {
                crate::ordered::lemma_take_step(list@, index as int);
                assert(queue.pending@.dom() =~= shorter.insert(connection));
                assert(shorter.insert(connection) =~= pending.union(
                    list@.take(index + 1).to_set(),
                ));
            }
            index = index + 1;
        }
        assert(list@.take(index as int) =~= list@);
    }

    /// The other connections of the net.
    fn siblings(asked: &OrderedSet<Connection>, connection: Connection) -> (result: Vec<Connection>)
        requires
            asked.wf(),
        ensures
            forall|c: Connection| #[trigger]
                result@.contains(c) <==> asked@.contains(c) && c.net == connection.net && c
                    != connection,
    {
        let mut result: Vec<Connection> = Vec::new();
        let mut index: usize = 0;
        while index < asked.len()
            invariant
                index <= asked.ordered().len(),
                asked.wf(),
                forall|i: int|
                    0 <= i < result@.len() ==> asked@.contains(#[trigger] result@[i])
                        && result@[i].net == connection.net && result@[i] != connection,
                forall|i: int|
                    0 <= i < index && (#[trigger] asked.ordered()[i]).net == connection.net
                        && asked.ordered()[i] != connection ==> result@.contains(
                        asked.ordered()[i],
                    ),
            decreases asked.ordered().len() - index,
        {
            let other = asked.at(index);
            let ghost before = result@;
            if other.net == connection.net && other != connection {
                result.push(other);
                proof {
                    assert(result@[before.len() as int] == other);
                    assert forall|i: int|
                        0 <= i < index && (#[trigger] asked.ordered()[i]).net == connection.net
                            && asked.ordered()[i] != connection implies result@.contains(
                        asked.ordered()[i],
                    ) by {
                        let k = before.index_of(asked.ordered()[i]);
                        assert(result@[k] == asked.ordered()[i]);
                    }
                }
            }
            index = index + 1;
        }
        proof {
            assert forall|c: Connection| #[trigger] result@.contains(c) <==> asked@.contains(c)
                && c.net == connection.net && c != connection by {
                asked.membership(c);
                if result@.contains(c) {
                    let k = result@.index_of(c);
                    assert(asked@.contains(result@[k]));
                }
                if asked@.contains(c) {
                    let k = asked.ordered().index_of(c);
                    assert(asked.ordered()[k] == c);
                }
            }
        }
        result
    }
}

impl<'a> Polisher<'a> {
    /// What was met among listed resources was met among the freed ones.
    proof fn lemma_met(
        &self,
        met: Map<Connection, HardRoutingBlockers>,
        before: Seq<Option<Arc<NetRoute>>>,
        connection: Connection,
        wires: Seq<WireId>,
        pips: Seq<PipId>,
        after: Seq<Option<Arc<NetRoute>>>,
    )
        requires
            self.is_exchange(before, connection, wires, pips, after),
        ensures
            forall|c: Connection| #[trigger]
                met_any(met, wires, pips, c) <==> self.met_freed(met, before, after, c),
    {
        assert forall|c: Connection| #[trigger] met_any(met, wires, pips, c) <==> self.met_freed(
            met,
            before,
            after,
            c,
        ) by {
            if exists|i: int| 0 <= i < wires.len() && met_wire(met, #[trigger] wires[i], c) {
                let i = choose|i: int| 0 <= i < wires.len() && met_wire(met, #[trigger] wires[i], c);
                assert(wires.contains(wires[i]));
                assert(frees_wire(self.graph.device, before, after, wires[i]));
            }
            if exists|i: int| 0 <= i < pips.len() && met_pip(met, #[trigger] pips[i], c) {
                let i = choose|i: int| 0 <= i < pips.len() && met_pip(met, #[trigger] pips[i], c);
                assert(pips.contains(pips[i]));
                assert(frees_pip(self.graph.device, before, after, pips[i]));
            }
            if exists|w: WireId| #[trigger]
                frees_wire(self.graph.device, before, after, w) && met_wire(met, w, c) {
                let w = choose|w: WireId| #[trigger]
                    frees_wire(self.graph.device, before, after, w) && met_wire(met, w, c);
                assert(wires.contains(w));
                let i = wires.index_of(w);
                assert(met_wire(met, wires[i], c));
            }
            if exists|p: PipId| #[trigger]
                frees_pip(self.graph.device, before, after, p) && met_pip(met, p, c) {
                let p = choose|p: PipId| #[trigger]
                    frees_pip(self.graph.device, before, after, p) && met_pip(met, p, c);
                assert(pips.contains(p));
                let i = pips.index_of(p);
                assert(met_pip(met, pips[i], c));
            }
        }
    }

    /// Every connection that was asked for may improve, and no other one waits.
    spec fn is_closed(&self, asked: Set<Connection>, point: PolishPoint) -> bool {
        &&& forall|c: Connection| #[trigger]
            asked.contains(c) ==> self.may_improve(c, point.routes)
        &&& forall|c: Connection| #[trigger] point.pending.contains(c) ==> asked.contains(c)
        &&& forall|c: Connection| #[trigger] point.met.contains_key(c) ==> asked.contains(c)
    }

    /// The other connections keep their arcs, and the selected one becomes
    /// cheaper wherever the routes change.
    spec fn is_gain(
        &self,
        before: Seq<Option<Arc<NetRoute>>>,
        connection: Connection,
        after: Seq<Option<Arc<NetRoute>>>,
    ) -> bool {
        &&& forall|c: Connection| c != connection ==> #[trigger] self.stays(before, after, c)
        &&& self.may_improve(connection, after)
        &&& within_capacity(self.graph.device, before) ==> within_capacity(
            self.graph.device,
            after,
        )
        &&& after == before || {
            &&& after == before.update(
                connection.net.0 as int,
                after[connection.net.0 as int],
            )
            &&& self.ranked(connection, after).realized_cost < self.ranked(
                connection,
                before,
            ).realized_cost
        }
    }

    /// Gives one connection its turn.
    fn take_turn(
        &self,
        connection: Connection,
        asked: &OrderedSet<Connection>,
        routes: &mut Vec<Option<Arc<NetRoute>>>,
        queue: &mut PolishQueue,
        subscriptions: &mut LegalRoutePolishSubscriptions,
        metrics: &mut LegalRoutePolishMetrics,
        workspace: &mut RoutingWorkspace,
        overused_wires: &mut OrderedSet<usize>,
        overused_pips: &mut OrderedSet<usize>,
        Ghost(base): Ghost<RoutingWorkspace>,
        Ghost(before): Ghost<PolishPoint>,
    ) -> (result: Ghost<(PolishEvent, PolishPoint)>)
        requires
            self.wf(),
            asked.wf(),
            self.slots_ok(old(routes)@),
            self.is_ready(
                base,
                old(routes)@,
                *old(workspace),
                old(overused_wires),
                old(overused_pips),
            ),
            before.routes == old(routes)@,
            before.met == old(subscriptions).blockers@,
            before.metrics == *old(metrics),
            before.pending.contains(connection),
            forall|c: Connection| #[trigger]
                before.pending.contains(c) ==> self.ranked(connection, before.routes).rank()
                    <= self.ranked(c, before.routes).rank(),
            self.queues(*old(queue), old(routes)@, before.pending.remove(connection)),
            old(subscriptions).wf(),
            self.is_closed(asked@, before),
        ensures
            self.is_step(base, asked@, before, result@.0, result@.1),
            self.slots_ok(final(routes)@),
            self.is_ready(
                base,
                final(routes)@,
                *final(workspace),
                final(overused_wires),
                final(overused_pips),
            ),
            result@.1.routes == final(routes)@,
            result@.1.met == final(subscriptions).blockers@,
            result@.1.metrics == *final(metrics),
            self.queues(*final(queue), final(routes)@, result@.1.pending),
            final(subscriptions).wf(),
            self.is_closed(asked@, result@.1),
            self.is_gain(old(routes)@, connection, final(routes)@),
            final(routes)@ == old(routes)@ ==> result@.1.pending == before.pending.remove(
                connection,
            ),
    {
        let ghost rest = before.pending.remove(connection);
        let attempt = self.attempt(
            connection,
            routes,
            workspace,
            overused_wires,
            overused_pips,
            Ghost(base),
        );
        let ghost event = attempt.event(connection);
        let ghost improves = self.is_improvement(before.routes, event);
        let PolishAttempt { blockers, reduction, wires, pips, outcome } = attempt;
        proof {
            assert forall|c: Connection| #[trigger] asked@.contains(c) implies self.may_improve(
                c,
                routes@,
            ) by {
                if c != connection {
                    assert(self.stays(before.routes, routes@, c));
                }
            }
            assert(asked@.contains(connection));
            assert forall|c: Connection| #[trigger] queue.pending@.contains_key(c) implies self.may_improve(
                c,
                routes@,
            ) && queue.pending@[c] == self.ranked(c, routes@) by {
                assert(rest.contains(c));
                assert(self.stays(before.routes, routes@, c));
            }
            self.lemma_met(
                before.met.insert(connection, blockers),
                before.routes,
                connection,
                wires@,
                pips@,
                routes@,
            );
        }
        proof {
            let net = connection.net.0 as int;
            self.lemma_realized(connection, &*(before.routes[net]->0));
            self.lemma_realized(connection, &*(routes@[net]->0));
        }
        subscriptions.replace(connection, blockers);
        metrics.attempts = metrics.attempts.saturating_add(1);
        let earlier: usize = queue.pending.len();
        proof {
            queue.pending.lemma_size();
        }
        let ghost mut pending = rest;
        if let Some(gain) = reduction {
            metrics.improvements = metrics.improvements.saturating_add(1);
            metrics.objective_reduction = metrics.objective_reduction.saturating_add(gain);
            let sleepers = subscriptions.subscribers(wires.as_slice(), pips.as_slice());
            proof {
                assert forall|i: int| 0 <= i < sleepers.ordered().len() implies self.may_improve(
                    #[trigger] sleepers.ordered()[i],
                    routes@,
                ) by {
                    let c = sleepers.ordered()[i];
                    sleepers.membership(c);
                    assert(sleepers.ordered().contains(c));
                    assert(sleepers@.contains(c));
                    assert(met_any(subscriptions.blockers@, wires@, pips@, c));
                    assert(subscriptions.blockers@.contains_key(c));
                    assert(asked@.contains(c));
                }
            }
            self.enqueue_all(sleepers.as_slice(), routes, queue, Ghost(rest));
            let siblings = Self::siblings(asked, connection);
            let ghost woken = rest.union(sleepers.ordered().to_set());
            proof {
                assert forall|i: int| 0 <= i < siblings@.len() implies self.may_improve(
                    #[trigger] siblings@[i],
                    routes@,
                ) by {
                    assert(siblings@.contains(siblings@[i]));
                    assert(asked@.contains(siblings@[i]));
                }
            }
            self.enqueue_all(siblings.as_slice(), routes, queue, Ghost(woken));
            proof {
                pending = woken.union(siblings@.to_set());
                assert forall|c: Connection| #[trigger] pending.contains(c) <==> rest.contains(c)
                    || met_any(subscriptions.blockers@, wires@, pips@, c) || (asked@.contains(c)
                    && c.net == connection.net && c != connection) by {
                    sleepers.membership(c);
                    assert(sleepers.ordered().to_set().contains(c)
                        <==> sleepers.ordered().contains(c));
                    assert(siblings@.to_set().contains(c) <==> siblings@.contains(c));
                }
            }
        }
        let later: usize = queue.pending.len();
        proof {
            queue.pending.lemma_size();
            assert(pending.len() == later);
            assert(rest.len() == earlier);
            assert(rest.subset_of(pending));
            vstd::set_lib::lemma_len_subset(rest, pending);
        }
        metrics.wakeups = metrics.wakeups.saturating_add(later - earlier);
        let ghost after = PolishPoint {
            routes: routes@,
            pending,
            met: subscriptions.blockers@,
            metrics: *metrics,
        };
        proof {
            assert forall|c: Connection| #[trigger] after.pending.contains(c) <==> (
            before.pending.contains(c) && c != connection) || self.wakes(
                asked@,
                before,
                event,
                after,
                c,
            ) by {
                if improves {
                    assert(met_any(after.met, wires@, pips@, c) <==> self.met_freed(
                        after.met,
                        before.routes,
                        after.routes,
                        c,
                    ));
                }
            }
            assert(after.metrics == self.counted(before, event, after));
            assert forall|c: Connection| #[trigger] after.pending.contains(c) implies asked@.contains(
                c,
            ) by {
                if met_any(after.met, wires@, pips@, c) {
                    assert(after.met.contains_key(c));
                }
            }
        }
        Ghost((event, after))
    }
}

/// The inputs as one value.
pub open spec fn polisher_of<'a>(
    graph: &UnifiedGraph<'a>,
    placement: &'a Placement,
    pin_wires: &'a PinWireCache,
    constraints: &'a RoutingConstraints,
    costs: &'a RoutingCosts,
) -> Polisher<'a> {
    Polisher { graph: *graph, placement, pin_wires, constraints, costs }
}

/// Routes each critical connection of a legal routing again where that makes
/// its arc cheaper.
///
/// Every other connection is an immovable obstacle. A connection whose search
/// met full resources has another turn once one of them has room, and the
/// other connections of a net have one once its tree grows.
pub fn polish_legal_timing_routes(
    graph: &UnifiedGraph<'_>,
    placement: &Placement,
    pin_wires: &PinWireCache,
    constraints: &RoutingConstraints,
    costs: &RoutingCosts,
    routes: &mut Vec<Option<Arc<NetRoute>>>,
    workspace: &mut RoutingWorkspace,
) -> (result: LegalRoutePolishMetrics)
    requires
        graph.wf(),
        placement.fits(graph.device),
        pin_wires.holds(*graph, placement),
        constraints.wf(),
        costs_fit(graph.device, costs),
        polisher_of(graph, placement, pin_wires, constraints, costs).slots_ok(old(routes)@),
        old(workspace).wf(),
        old(workspace).fits(graph.device),
        old(workspace).wires.counts(wire_sets(old(routes)@)),
        old(workspace).pips.counts(pip_sets(old(routes)@)),
    ensures
        polisher_of(graph, placement, pin_wires, constraints, costs).polishes(
            *old(workspace),
            old(routes)@,
            final(routes)@,
            result,
        ),
        polisher_of(graph, placement, pin_wires, constraints, costs).slots_ok(final(routes)@),
        polisher_of(graph, placement, pin_wires, constraints, costs).never_costlier(
            old(routes)@,
            final(routes)@,
        ),
        polisher_of(graph, placement, pin_wires, constraints, costs).others_kept(
            old(routes)@,
            final(routes)@,
        ),
        within_capacity(graph.device, old(routes)@) ==> within_capacity(
            graph.device,
            final(routes)@,
        ),
        final(workspace).wf(),
        !final(workspace).resident_valid,
        is_priced_room(graph.device, *old(workspace), final(routes)@, *final(workspace)),
{
    let polisher = Polisher { graph: *graph, placement, pin_wires, constraints, costs };
    let ghost base = *workspace;
    let ghost first = routes@;
    proof {
        assert forall|i: int| 0 <= i < first.len() implies slot_fits(
            #[trigger] first[i],
            workspace.wire_count(),
            workspace.pip_count(),
        ) by {
            assert(polisher.slot_ok(i, first[i]));
            if let Some(route) = first[i] {
                lemma_arcs_slot_fits(*graph, placement, NetId(i as usize), route);
            }
        }
    }
    workspace.resident_valid = false;
    let mut overused_wires = workspace.wires.find_overused();
    let mut overused_pips = workspace.pips.find_overused();
    let asked = polisher.collect_asked(routes);
    let mut queue = PolishQueue::new();
    proof {
        assert(queue.pending@.dom() =~= Set::<Connection>::empty());
        assert forall|i: int| 0 <= i < asked.ordered().len() implies polisher.may_improve(
            #[trigger] asked.ordered()[i],
            routes@,
        ) by {
            let c = asked.ordered()[i];
            asked.membership(c);
            assert(asked.ordered().contains(c));
            assert(asked@.contains(c));
        }
    }
    polisher.enqueue_all(asked.as_slice(), routes, &mut queue, Ghost(Set::empty()));
    let mut metrics = LegalRoutePolishMetrics {
        passes: 1,
        initial_candidates: asked.len(),
        attempts: 0,
        wakeups: 0,
        improvements: 0,
        objective_reduction: 0,
    };
    let mut subscriptions = LegalRoutePolishSubscriptions::new();
    let ghost list = asked.ordered();
    let ghost mut points: Seq<PolishPoint> = seq![
        PolishPoint {
            routes: first,
            pending: asked@,
            met: subscriptions.blockers@,
            metrics,
        },
    ];
    let ghost mut events: Seq<PolishEvent> = Seq::empty();
    proof {
        asked.size();
        crate::ordered::increasing_has_no_duplicates(list);
        assert forall|c: Connection| Set::<Connection>::empty().union(
            asked.ordered().to_set(),
        ).contains(c) == asked@.contains(c) by {
            asked.membership(c);
        }
        assert(Set::<Connection>::empty().union(asked.ordered().to_set()) =~= asked@);
        queue.pending.lemma_size();
        assert(polisher.is_course(base, first, points, events));
    }
    let mut more = true;
    while more
        invariant
            polisher.wf(),
            asked.wf(),
            polisher.graph == *graph,
            list == asked.ordered(),
            list.no_duplicates(),
            asked@ == polisher.asked(first),
            polisher.slots_ok(routes@),
            polisher.is_ready(base, routes@, *workspace, &overused_wires, &overused_pips),
            polisher.is_course(base, first, points, events),
            points.last().routes == routes@,
            points.last().met == subscriptions.blockers@,
            points.last().metrics == metrics,
            polisher.queues(queue, routes@, points.last().pending),
            subscriptions.wf(),
            polisher.is_closed(asked@, points.last()),
            polisher.never_costlier(first, routes@),
            polisher.others_kept(first, routes@),
            within_capacity(graph.device, first) ==> within_capacity(graph.device, routes@),
            !more ==> points.last().pending == Set::<Connection>::empty(),
        decreases
                polisher.total_cost(list, routes@),
                queue.pending.ordered().len(),
                if more {
                    1int
                } else {
                    0int
                },
    {
        let ghost before = points.last();
        let ghost slots = routes@;
        proof {
            queue.pending.lemma_size();
        }
        match queue.pop_first() {
            None => {
                more = false;
                assert(before.pending =~= Set::<Connection>::empty());
            },
            Some(entry) => {
                let connection = entry.connection;
                proof {
                    assert(before.pending.contains(connection));
                    assert(asked@.contains(connection));
                    assert forall|c: Connection| #[trigger] before.pending.contains(
                        c,
                    ) implies polisher.ranked(connection, before.routes).rank()
                        <= polisher.ranked(c, before.routes).rank() by {
                        assert(polisher.may_improve(c, before.routes));
                    }
                    assert(queue.pending@.dom() =~= before.pending.remove(connection));
                    queue.pending.lemma_size();
                }
                let step = polisher.take_turn(
                    connection,
                    &asked,
                    routes,
                    &mut queue,
                    &mut subscriptions,
                    &mut metrics,
                    workspace,
                    &mut overused_wires,
                    &mut overused_pips,
                    Ghost(base),
                    Ghost(before),
                );
                proof {
                    polisher.lemma_course_grows(base, first, points, events, step@.0, step@.1);
                    points = points.push(step@.1);
                    events = events.push(step@.0);
                    queue.pending.lemma_size();
                    asked.membership(connection);
                    if routes@ != slots {
                        assert forall|i: int|
                            0 <= i < list.len() && list[i] != connection implies polisher.ranked(
                            #[trigger] list[i],
                            routes@,
                        ).realized_cost == polisher.ranked(list[i], slots).realized_cost by {
                            let c = list[i];
                            asked.membership(c);
                            assert(list.contains(c));
                            assert(asked@.contains(c));
                            assert(polisher.stays(slots, routes@, c));
                        }
                        polisher.lemma_total_falls(list, connection, slots, routes@);
                    }
                    assert forall|c: Connection| #[trigger] polisher.may_improve(
                        c,
                        first,
                    ) implies polisher.may_improve(c, routes@) && polisher.ranked(
                        c,
                        routes@,
                    ).realized_cost <= polisher.ranked(c, first).realized_cost by {
                        assert(polisher.may_improve(c, slots));
                        if c != connection {
                            assert(polisher.stays(slots, routes@, c));
                        }
                    }
                    assert forall|i: int|
                        0 <= i < first.len() && !polisher.net_asked(
                            first,
                            i,
                        ) implies #[trigger] routes@[i] == first[i] by {
                        assert(slots[i] == first[i]);
                        assert(polisher.may_improve(connection, first));
                    }
                }
            },
        }
    }
    assert(polisher.is_course(base, first, points, events));
    metrics
}

} // verus!
