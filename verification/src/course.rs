//! The course of a negotiation, iteration by iteration.

use std::sync::Arc;

use vstd::prelude::*;

use crate::conflicts::{dirty_net_set, excess_total, is_unrouted};
use crate::cost::{clip_u64, negotiated_price};
use crate::cycles::{
    members, order_entry, released_since, CongestionObjective, RoutingConflictCycleDetector,
    RoutingOrderEntry,
};
use crate::error::PnrError;
use crate::model::{Connection, NetId};
use crate::negotiate::{is_entered, RoutingProgress};
use crate::negotiation::Negotiation;
use crate::net_growth::NetRouter;
use crate::net_state::is_trial;
use crate::occupancy::{pip_sets, users, wire_sets, ResourceTable};
use crate::ordered::nondecreasing;
use crate::owners::{OwnerIndex, ResourceClass};
use crate::release::{net_is_dirty, preserves};
use crate::route::{NetRoute, RouteArc};
use crate::search::{MetResources, RouteSearch};
use crate::trial::Trial;
use crate::victims::is_victim;
use crate::slots::enters_full;
use crate::stages::{claims, is_counted, is_resolved, repairs, rips_up, Stage};
use crate::workspace::{countable, slot_fits, RoutingWorkspace};

verus! {

/// The resource has its negotiated price, or none where nothing ever used it.
pub open spec fn price_holds(table: ResourceTable, present: int, resource: int) -> bool {
    ||| table.congestion@[resource] == negotiated_price(
        table.occupancy@[resource] as int,
        table.capacities@[resource] as int,
        table.history@[resource] as int,
        present,
    )
    ||| table.blank(resource)
}

/// Every resource has its negotiated price.
pub open spec fn prices_hold(table: ResourceTable, present: int) -> bool {
    forall|r: int| 0 <= r < table.capacities@.len() ==> #[trigger] price_holds(table, present, r)
}

/// Weight of present overuse: it doubles with every iteration, up to a limit.
pub open spec fn present_weight(iteration: int) -> int {
    (1u32 << (if iteration < 12 {
        iteration as u32
    } else {
        12u32
    })) as int
}

/// Where a negotiation stands before an iteration.
pub struct NegotiationPoint {
    /// Routes so far.
    pub routes: Seq<Option<Arc<NetRoute>>>,
    /// Accumulated overuse of each wire.
    pub wire_history: Seq<u32>,
    /// Accumulated overuse of each PIP.
    pub pip_history: Seq<u32>,
    /// Connections to be routed.
    pub dirty: Set<Connection>,
    /// Nets of a cycle, which come first.
    pub priority: Set<usize>,
    /// States seen so far.
    pub detector: RoutingConflictCycleDetector,
    /// Events so far.
    pub log: Seq<RoutingProgress>,
    /// Owners of the wires.
    pub wire_owners: OwnerIndex,
    /// Owners of the PIPs.
    pub pip_owners: OwnerIndex,
}

impl NegotiationPoint {
    /// Routes with the owners of their resources.
    pub open spec fn stage(&self) -> Stage {
        Stage { routes: self.routes, wires: self.wire_owners, pips: self.pip_owners }
    }
}

/// Arcs of a slot.
pub open spec fn slot_arcs(slot: Option<Arc<NetRoute>>) -> Seq<RouteArc> {
    match slot {
        Some(route) => route.arcs@,
        None => Seq::empty(),
    }
}

/// The slot after its dirty connections were released.
pub open spec fn slot_released(
    before: Option<Arc<NetRoute>>,
    dirty: Set<Connection>,
    after: Option<Arc<NetRoute>>,
) -> bool {
    match before {
        None => after is None,
        Some(previous) => after matches Some(kept) && preserves(*previous, dirty, *kept),
    }
}

/// Every dirty net is released, and no other one changes.
pub open spec fn is_release(
    before: Seq<Option<Arc<NetRoute>>>,
    dirty: Set<Connection>,
    after: Seq<Option<Arc<NetRoute>>>,
) -> bool {
    &&& after.len() == before.len()
    &&& forall|i: int|
        0 <= i < before.len() ==> if net_is_dirty(dirty, NetId(i as usize)) {
            slot_released(before[i], dirty, #[trigger] after[i])
        } else {
            after[i] == before[i]
        }
}

/// Overuse adds to the history.
pub open spec fn is_grown(
    before: Seq<u32>,
    sets: Seq<Set<int>>,
    capacities: Seq<u16>,
    after: Seq<u32>,
) -> bool {
    &&& after.len() == before.len()
    &&& forall|r: int|
        0 <= r < before.len() ==> #[trigger] after[r] == before[r] + crate::cost::larger(
            users(sets, r) - capacities[r],
            0,
        )
}

/// Excess users and overused resources.
pub open spec fn is_objective(
    state: Negotiation,
    room: RoutingWorkspace,
    objective: CongestionObjective,
) -> bool {
    let wires = state.overused_wires.ordered();
    let pips = state.overused_pips.ordered();
    &&& objective.excess == clip_u64(
        clip_u64(excess_total(room.wires.occupancy@, room.wires.capacities@, wires)) + clip_u64(
            excess_total(room.pips.occupancy@, room.pips.capacities@, pips),
        ),
    )
    &&& objective.resources == if wires.len() + pips.len() > usize::MAX {
        usize::MAX as nat
    } else {
        wires.len() + pips.len()
    }
}

/// The first state of the epoch that shows these conflicts and victims.
pub open spec fn recurs_at(
    states: Seq<crate::cycles::RoutingConflictState>,
    wires: Set<usize>,
    pips: Set<usize>,
    victims: Set<Connection>,
    at: int,
) -> bool {
    &&& 0 <= at < states.len()
    &&& states[at].wires@ == wires
    &&& states[at].pips@ == pips
    &&& states[at].dirty@ == victims
}

/// What a negotiation notes of one iteration: an exact recurrence within an
/// epoch closes a cycle, whose connections are released too and come first.
pub open spec fn is_noted(
    before: RoutingConflictCycleDetector,
    objective: CongestionObjective,
    wires: Set<usize>,
    pips: Set<usize>,
    victims: Set<Connection>,
    after: RoutingConflictCycleDetector,
    dirty: Set<Connection>,
    priority: Set<usize>,
) -> bool {
    let states = before.epoch(objective);
    &&& after.best_objective == if before.opens_epoch(objective) {
        Some(objective)
    } else {
        before.best_objective
    }
    &&& if exists|at: int| recurs_at(states, wires, pips, victims, at) {
        exists|at: int|
            {
                &&& #[trigger] recurs_at(states, wires, pips, victims, at)
                &&& dirty == victims.union(released_since(states, at))
                &&& priority == dirty_net_set(released_since(states, at))
                &&& after.states@.len() == 0
            }
    } else {
        &&& dirty == victims
        &&& priority == Set::<usize>::empty()
        &&& after.states@.len() == states.len() + 1
        &&& after.states@.drop_last() == states
        &&& recurs_at(after.states@, wires, pips, victims, states.len() as int)
    }
}

/// Events of the first nets of an iteration.
pub open spec fn net_events(
    iteration: u32,
    total: usize,
    order: Seq<RoutingOrderEntry>,
    count: int,
) -> Seq<RoutingProgress> {
    Seq::new(
        count as nat,
        |i: int|
            RoutingProgress::Net {
                iteration,
                ordinal: (i + 1) as usize,
                total,
                net: NetId(order[i].index),
            },
    )
}

/// The events of an iteration: its number with that of its nets, and each of the
/// first nets in its turn.
pub open spec fn sweep_events(
    iteration: int,
    point: NegotiationPoint,
    order: Seq<RoutingOrderEntry>,
    count: int,
) -> Seq<RoutingProgress> {
    let total = dirty_net_set(point.dirty).len() as usize;
    seq![RoutingProgress::Iteration { iteration: iteration as u32, nets: total }] + net_events(
        iteration as u32,
        total,
        order,
        count,
    )
}

impl<'a> Trial<'a> {
    /// The connection is one of those that an iteration leaves to be routed again.
    pub open spec fn is_chosen(
        &self,
        state: Negotiation,
        room: RoutingWorkspace,
        connection: Connection,
    ) -> bool {
        ||| is_victim(
            state.records(room, ResourceClass::Wire),
            room.wires.capacities@,
            self.constraints,
            self.costs,
            connection,
        )
        ||| is_victim(
            state.records(room, ResourceClass::Pip),
            room.pips.capacities@,
            self.constraints,
            self.costs,
            connection,
        )
    }

    /// The tables count the routes and price what they would cost one more net.
    pub open spec fn is_market(
        &self,
        base: RouteSearch,
        point: NegotiationPoint,
        present: int,
        routes: Seq<Option<Arc<NetRoute>>>,
        room: RoutingWorkspace,
    ) -> bool {
        &&& is_counted(self.graph.device, routes, room)
        &&& room.wires.history@ == point.wire_history
        &&& room.pips.history@ == point.pip_history
        &&& prices_hold(room.wires, present)
        &&& prices_hold(room.pips, present)
        &&& room.search.same_estimates(&base)
    }

    /// The router of one net at these prices.
    pub open spec fn is_buyer(
        &self,
        router: NetRouter<'_>,
        room: RoutingWorkspace,
        first_iteration: bool,
    ) -> bool {
        &&& is_trial(router, self.graph, self.placement, self.constraints, self.costs)
        &&& router.hard_occupancy is None
        &&& router.allow_alternate_source == first_iteration
        &&& router.wire_congestion@ == room.wires.congestion@
        &&& router.pip_congestion@ == room.pips.congestion@
        &&& router.metadata.wire_points@ == room.wire_points@
        &&& router.metadata.wire_capacities@ == room.wires.capacities@
        &&& router.metadata.pip_capacities@ == room.pips.capacities@
    }

    /// What routing the net from the arcs gives at the prices of the room.
    #[verifier::opaque]
    pub open spec fn buys(
        &self,
        room: RoutingWorkspace,
        first_iteration: bool,
        net: NetId,
        fixed: Seq<RouteArc>,
        outcome: Result<NetRoute, PnrError>,
    ) -> bool {
        match outcome {
            Ok(route) => exists|router: NetRouter<'_>, met: MetResources|
                self.is_buyer(router, room, first_iteration) && #[trigger] router.grows(
                    net,
                    fixed,
                    room.search,
                    route,
                    met,
                ),
            Err(error) => exists|router: NetRouter<'_>, met: MetResources|
                self.is_buyer(router, room, first_iteration) && #[trigger] router.strands(
                    net,
                    fixed,
                    room.search,
                    error,
                    met,
                ),
        }
    }

    /// What routing the net among the routes gives in the iteration.
    pub open spec fn is_turn(
        &self,
        base: RouteSearch,
        iteration: int,
        point: NegotiationPoint,
        routes: Seq<Option<Arc<NetRoute>>>,
        net: usize,
        outcome: Result<NetRoute, PnrError>,
    ) -> bool {
        exists|room: RoutingWorkspace|
            #[trigger] self.is_market(base, point, present_weight(iteration), routes, room)
                && self.buys(
                room,
                iteration == 0,
                NetId(net),
                slot_arcs(routes[net as int]),
                outcome,
            )
    }

    /// The dirty nets, constrained ones first, then by criticality, hold
    /// repair, fanout and number.
    pub open spec fn lists_dirty(
        &self,
        dirty: Set<Connection>,
        sorted: Seq<RoutingOrderEntry>,
    ) -> bool {
        &&& nondecreasing(sorted)
        &&& sorted.no_duplicates()
        &&& forall|e: RoutingOrderEntry| #[trigger]
            sorted.contains(e) <==> {
                &&& e.index < self.net_count()
                &&& net_is_dirty(dirty, NetId(e.index))
                &&& e == order_entry(
                    self.graph.design,
                    self.constraints,
                    self.costs,
                    e.index as int,
                )
            }
    }

    /// The order of an iteration: nets of a cycle come first, the last of them before
    /// the others.
    pub open spec fn is_order(
        &self,
        point: NegotiationPoint,
        order: Seq<RoutingOrderEntry>,
    ) -> bool {
        exists|sorted: Seq<RoutingOrderEntry>| #[trigger]
            self.lists_dirty(point.dirty, sorted) && order == if point.priority == Set::<
                usize,
            >::empty() {
                sorted
            } else {
                members(sorted, point.priority, true).reverse() + members(
                    sorted,
                    point.priority,
                    false,
                )
            }
    }

    /// One net of the iteration is routed.
    pub open spec fn is_turn_at(
        &self,
        base: RouteSearch,
        iteration: int,
        point: NegotiationPoint,
        order: Seq<RoutingOrderEntry>,
        chain: Seq<Stage>,
        at: int,
    ) -> bool {
        self.takes_turn(base, iteration, point, order[at].index, chain[at], chain[at + 1])
    }

    /// The net is routed and takes the resources of its route.
    pub open spec fn takes_turn(
        &self,
        base: RouteSearch,
        iteration: int,
        point: NegotiationPoint,
        net: usize,
        before: Stage,
        after: Stage,
    ) -> bool {
        &&& after.routes == before.routes.update(net as int, after.routes[net as int])
        &&& after.routes[net as int] matches Some(route) && self.is_turn(
            base,
            iteration,
            point,
            before.routes,
            net,
            Ok(*route),
        )
        &&& claims(self.graph.device, net, before, after)
    }

    /// The dirty nets are released, and the owners repaired.
    pub open spec fn begins(&self, point: NegotiationPoint, first: Stage) -> bool {
        exists|released: Stage|
            #[trigger] rips_up(self.graph.device, point.dirty, point.stage(), released)
                && repairs(released, first)
    }

    /// The first nets of the iteration are routed in turn, from where every
    /// dirty connection is released.
    pub open spec fn is_sweep(
        &self,
        base: RouteSearch,
        iteration: int,
        point: NegotiationPoint,
        order: Seq<RoutingOrderEntry>,
        chain: Seq<Stage>,
    ) -> bool {
        &&& self.is_order(point, order)
        &&& 0 < chain.len() <= order.len() + 1
        &&& is_release(point.routes, point.dirty, chain[0].routes)
        &&& self.begins(point, chain[0])
        &&& forall|i: int|
            0 <= i < chain.len() - 1 ==> #[trigger] self.is_turn_at(
                base,
                iteration,
                point,
                order,
                chain,
                i,
            )
    }

    /// Every net of the iteration is routed, each in its turn told by an event.
    pub open spec fn sweeps(
        &self,
        base: RouteSearch,
        iteration: int,
        point: NegotiationPoint,
        last: Stage,
        events: Seq<RoutingProgress>,
    ) -> bool {
        exists|order: Seq<RoutingOrderEntry>, chain: Seq<Stage>|
            {
                &&& #[trigger] self.is_sweep(base, iteration, point, order, chain)
                &&& chain.len() == order.len() + 1
                &&& chain.last() == last
                &&& events == sweep_events(iteration, point, order, order.len() as int)
            }
    }

    /// The net whose turn it is cannot be routed, or its route enters a resource
    /// whose counter is full; the events end with that net.
    pub open spec fn stops(
        &self,
        base: RouteSearch,
        iteration: int,
        point: NegotiationPoint,
        error: PnrError,
        events: Seq<RoutingProgress>,
    ) -> bool {
        exists|order: Seq<RoutingOrderEntry>, chain: Seq<Stage>|
            {
                &&& #[trigger] self.is_sweep(base, iteration, point, order, chain)
                &&& chain.len() <= order.len()
                &&& events == sweep_events(iteration, point, order, chain.len() as int)
                &&& self.halts(
                    base,
                    iteration,
                    point,
                    chain.last().routes,
                    order[chain.len() - 1].index,
                    error,
                )
            }
    }

    /// Routing the net among the routes fails, or gives a route that cannot be counted.
    pub open spec fn halts(
        &self,
        base: RouteSearch,
        iteration: int,
        point: NegotiationPoint,
        routes: Seq<Option<Arc<NetRoute>>>,
        net: usize,
        error: PnrError,
    ) -> bool {
        if error is CongestionNotResolved {
            exists|route: Arc<NetRoute>|
                {
                    &&& self.is_turn(base, iteration, point, routes, net, Ok(*route))
                    &&& slot_fits(
                        Some(route),
                        self.graph.device.wires@.len() as int,
                        self.graph.device.pips@.len() as int,
                    )
                    &&& #[trigger] enters_full(routes, net as int, Some(route))
                }
        } else {
            self.is_turn(base, iteration, point, routes, net, Err(error))
        }
    }

    /// What is left to be routed again after an iteration, and what is noted of it.
    pub open spec fn is_sequel(
        &self,
        before: RoutingConflictCycleDetector,
        last: Stage,
        after: NegotiationPoint,
    ) -> bool {
        exists|
            state: Negotiation,
            room: RoutingWorkspace,
            objective: CongestionObjective,
            victims: Set<Connection>,
        |
            {
                &&& #[trigger] state.balanced(room, *self)
                &&& state.routes@ == after.routes
                &&& state.routes@ == last.routes
                &&& room.wire_owners == last.wires
                &&& room.pip_owners == last.pips
                &&& is_resolved(
                    last.wires,
                    after.routes,
                    after.dirty,
                    ResourceClass::Wire,
                    after.wire_owners,
                )
                &&& is_resolved(
                    last.pips,
                    after.routes,
                    after.dirty,
                    ResourceClass::Pip,
                    after.pip_owners,
                )
                &&& #[trigger] is_objective(state, room, objective)
                &&& forall|c: Connection|
                    victims.contains(c) <==> #[trigger] self.is_chosen(state, room, c)
                &&& #[trigger] is_noted(
                    before,
                    objective,
                    state.overused_wires@,
                    state.overused_pips@,
                    victims,
                    after.detector,
                    after.dirty,
                    after.priority,
                )
            }
    }

    /// One iteration routes every dirty net, and leaves some resource overused.
    pub open spec fn is_iteration(
        &self,
        base: RouteSearch,
        iteration: int,
        before: NegotiationPoint,
        after: NegotiationPoint,
    ) -> bool {
        let device = self.graph.device;
        &&& exists|last: Stage, events: Seq<RoutingProgress>|
            {
                &&& #[trigger] self.sweeps(base, iteration, before, last, events)
                &&& after.log == before.log + events
                &&& self.is_sequel(before.detector, last, after)
            }
        &&& !crate::negotiate::within_capacity(device, after.routes)
        &&& is_grown(
            before.wire_history,
            wire_sets(after.routes),
            Seq::new(device.wires@.len(), |w: int| device.wires@[w].capacity),
            after.wire_history,
        )
        &&& is_grown(
            before.pip_history,
            pip_sets(after.routes),
            Seq::new(device.pips@.len(), |p: int| device.pips@[p].capacity),
            after.pip_history,
        )
    }

    /// Nothing is noted yet, and what no route reaches is to be routed.
    pub open spec fn is_opening(
        &self,
        routes: Seq<Option<Arc<NetRoute>>>,
        point: NegotiationPoint,
    ) -> bool {
        &&& point.routes == routes
        &&& point.wire_history == Seq::new(self.graph.device.wires@.len(), |w: int| 0u32)
        &&& point.pip_history == Seq::new(self.graph.device.pips@.len(), |p: int| 0u32)
        &&& point.dirty == Set::new(|c: Connection| is_unrouted(*self, routes, c))
        &&& point.priority == Set::<usize>::empty()
        &&& point.detector.best_objective is None
        &&& point.detector.states@.len() == 0
        &&& point.log == Seq::<RoutingProgress>::empty()
        &&& point.wire_owners.wf()
        &&& point.pip_owners.wf()
        &&& exists|room: RoutingWorkspace|
            {
                &&& #[trigger] is_counted(self.graph.device, routes, room)
                &&& is_entered(wire_sets(routes), room.wires, point.wire_owners)
                &&& is_entered(pip_sets(routes), room.pips, point.pip_owners)
            }
    }

    /// One step of the course.
    pub open spec fn is_iteration_at(
        &self,
        base: RouteSearch,
        points: Seq<NegotiationPoint>,
        at: int,
    ) -> bool {
        self.is_iteration(base, at, points[at], points[at + 1])
    }

    /// The iterations so far, each of which left some resource overused.
    pub open spec fn is_course(
        &self,
        base: RouteSearch,
        routes: Seq<Option<Arc<NetRoute>>>,
        points: Seq<NegotiationPoint>,
    ) -> bool {
        &&& 0 < points.len() <= self.iteration_limit() + 1
        &&& self.is_opening(routes, points[0])
        &&& forall|i: int|
            0 <= i < points.len() - 1 ==> #[trigger] self.is_iteration_at(base, points, i)
    }

    /// The negotiation from the routes on ends with these and tells these events.
    pub open spec fn negotiates(
        &self,
        base: RouteSearch,
        routes: Seq<Option<Arc<NetRoute>>>,
        settled: Seq<Option<Arc<NetRoute>>>,
        log: Seq<RoutingProgress>,
    ) -> bool {
        exists|points: Seq<NegotiationPoint>, last: Stage, events: Seq<RoutingProgress>|
            {
                &&& #[trigger] self.is_course(base, routes, points)
                &&& points.len() <= self.iteration_limit()
                &&& #[trigger] self.sweeps(
                    base,
                    points.len() - 1,
                    points.last(),
                    last,
                    events,
                )
                &&& last.routes == settled
                &&& log == points.last().log + events
                &&& crate::negotiate::within_capacity(self.graph.device, settled)
            }
    }

    /// The negotiation from the routes on fails for this reason and tells these
    /// events: the routes cannot be counted, some net cannot be routed or counted,
    /// or the last iteration leaves these numbers of overused resources.
    pub open spec fn gives_up(
        &self,
        base: RouteSearch,
        routes: Seq<Option<Arc<NetRoute>>>,
        error: PnrError,
        log: Seq<RoutingProgress>,
    ) -> bool {
        ||| self.runs_out(base, routes, error, log)
        ||| exists|points: Seq<NegotiationPoint>, events: Seq<RoutingProgress>|
            {
                &&& #[trigger] self.is_course(base, routes, points)
                &&& points.len() <= self.iteration_limit()
                &&& #[trigger] self.stops(base, points.len() - 1, points.last(), error, events)
                &&& log == points.last().log + events
            }
    }

    /// The last iteration leaves these numbers of overused resources, or the
    /// routes to begin with cannot be counted.
    pub open spec fn runs_out(
        &self,
        base: RouteSearch,
        routes: Seq<Option<Arc<NetRoute>>>,
        error: PnrError,
        log: Seq<RoutingProgress>,
    ) -> bool {
        error matches PnrError::CongestionNotResolved { iterations, overused_wires, overused_pips }
            && iterations == self.iteration_limit() && {
            ||| !countable(
                routes,
                self.graph.device.wires@.len() as int,
                self.graph.device.pips@.len() as int,
            ) && log == Seq::<RoutingProgress>::empty()
            ||| exists|points: Seq<NegotiationPoint>|
                {
                    &&& #[trigger] self.is_course(base, routes, points)
                    &&& points.len() == self.iteration_limit() + 1
                    &&& self.overuses(points.last().routes, overused_wires, overused_pips)
                    &&& log == points.last().log
                }
        }
    }

    /// The routes overuse these numbers of wires and PIPs.
    pub open spec fn overuses(
        &self,
        routes: Seq<Option<Arc<NetRoute>>>,
        wires: usize,
        pips: usize,
    ) -> bool {
        exists|state: Negotiation, room: RoutingWorkspace|
            {
                &&& #[trigger] state.balanced(room, *self)
                &&& state.routes@ == routes
                &&& wires == state.overused_wires.ordered().len()
                &&& pips == state.overused_pips.ordered().len()
            }
    }

    /// One more iteration makes a longer course.
    pub proof fn lemma_course_grows(
        &self,
        base: RouteSearch,
        routes: Seq<Option<Arc<NetRoute>>>,
        points: Seq<NegotiationPoint>,
        next: NegotiationPoint,
    )
        requires
            self.is_course(base, routes, points),
            points.len() <= self.iteration_limit(),
            self.is_iteration(base, points.len() - 1, points.last(), next),
        ensures
            self.is_course(base, routes, points.push(next)),
    {
        let longer = points.push(next);
        assert forall|i: int| 0 <= i < longer.len() - 1 implies #[trigger] self.is_iteration_at(
            base,
            longer,
            i,
        ) by {
            if i < points.len() - 1 {
                assert(self.is_iteration_at(base, points, i));
                assert(longer[i] == points[i] && longer[i + 1] == points[i + 1]);
            } else {
                assert(longer[i] == points.last());
            }
        }
    }

    /// One more net makes a longer sweep.
    pub proof fn lemma_sweep_grows(
        &self,
        base: RouteSearch,
        iteration: int,
        point: NegotiationPoint,
        order: Seq<RoutingOrderEntry>,
        chain: Seq<Stage>,
        next: Stage,
    )
        requires
            self.is_sweep(base, iteration, point, order, chain),
            chain.len() <= order.len(),
            self.takes_turn(
                base,
                iteration,
                point,
                order[chain.len() - 1].index,
                chain.last(),
                next,
            ),
        ensures
            self.is_sweep(base, iteration, point, order, chain.push(next)),
    {
        let longer = chain.push(next);
        assert forall|i: int| 0 <= i < longer.len() - 1 implies #[trigger] self.is_turn_at(
            base,
            iteration,
            point,
            order,
            longer,
            i,
        ) by {
            if i < chain.len() - 1 {
                assert(self.is_turn_at(base, iteration, point, order, chain, i));
                assert(longer[i] == chain[i] && longer[i + 1] == chain[i + 1]);
            } else {
                assert(longer[i] == chain.last());
            }
        }
        assert(longer[0] == chain[0]);
    }
}

impl<'a> Trial<'a> {
    /// A turn depends on the estimates alone.
    proof fn lemma_same_turn(
        &self,
        a: RouteSearch,
        b: RouteSearch,
        iteration: int,
        point: NegotiationPoint,
        routes: Seq<Option<Arc<NetRoute>>>,
        net: usize,
    )
        requires
            a.same_estimates(&b),
        ensures
            forall|outcome: Result<NetRoute, PnrError>| #[trigger]
                self.is_turn(a, iteration, point, routes, net, outcome) ==> self.is_turn(
                    b,
                    iteration,
                    point,
                    routes,
                    net,
                    outcome,
                ),
    {
        assert forall|outcome: Result<NetRoute, PnrError>| #[trigger]
            self.is_turn(a, iteration, point, routes, net, outcome) implies self.is_turn(
            b,
            iteration,
            point,
            routes,
            net,
            outcome,
        ) by {
            let room = choose|room: RoutingWorkspace|
                #[trigger] self.is_market(a, point, present_weight(iteration), routes, room)
                    && self.buys(
                    room,
                    iteration == 0,
                    NetId(net),
                    slot_arcs(routes[net as int]),
                    outcome,
                );
            assert(self.is_market(b, point, present_weight(iteration), routes, room));
        }
    }

    /// A sweep depends on the estimates alone.
    proof fn lemma_same_sweep(
        &self,
        a: RouteSearch,
        b: RouteSearch,
        iteration: int,
        point: NegotiationPoint,
        order: Seq<RoutingOrderEntry>,
        chain: Seq<Stage>,
    )
        requires
            a.same_estimates(&b),
            self.is_sweep(a, iteration, point, order, chain),
        ensures
            self.is_sweep(b, iteration, point, order, chain),
    {
        assert forall|i: int| 0 <= i < chain.len() - 1 implies #[trigger] self.is_turn_at(
            b,
            iteration,
            point,
            order,
            chain,
            i,
        ) by {
            assert(self.is_turn_at(a, iteration, point, order, chain, i));
            let net = order[i].index;
            self.lemma_same_turn(a, b, iteration, point, chain[i].routes, net);
        }
    }

    /// A whole sweep depends on the estimates alone.
    proof fn lemma_same_sweeps(
        &self,
        a: RouteSearch,
        b: RouteSearch,
        iteration: int,
        point: NegotiationPoint,
        last: Stage,
        events: Seq<RoutingProgress>,
    )
        requires
            a.same_estimates(&b),
            self.sweeps(a, iteration, point, last, events),
        ensures
            self.sweeps(b, iteration, point, last, events),
    {
        let (order, chain) = choose|
            order: Seq<RoutingOrderEntry>,
            chain: Seq<Stage>,
        |
            {
                &&& #[trigger] self.is_sweep(a, iteration, point, order, chain)
                &&& chain.len() == order.len() + 1
                &&& chain.last() == last
                &&& events == sweep_events(iteration, point, order, order.len() as int)
            };
        self.lemma_same_sweep(a, b, iteration, point, order, chain);
    }

    /// A sweep that stops depends on the estimates alone.
    proof fn lemma_same_stops(
        &self,
        a: RouteSearch,
        b: RouteSearch,
        iteration: int,
        point: NegotiationPoint,
        error: PnrError,
        events: Seq<RoutingProgress>,
    )
        requires
            a.same_estimates(&b),
            self.stops(a, iteration, point, error, events),
        ensures
            self.stops(b, iteration, point, error, events),
    {
        let (order, chain) = choose|
            order: Seq<RoutingOrderEntry>,
            chain: Seq<Stage>,
        |
            {
                &&& #[trigger] self.is_sweep(a, iteration, point, order, chain)
                &&& chain.len() <= order.len()
                &&& events == sweep_events(iteration, point, order, chain.len() as int)
                &&& self.halts(
                    a,
                    iteration,
                    point,
                    chain.last().routes,
                    order[chain.len() - 1].index,
                    error,
                )
            };
        let net = order[chain.len() - 1].index;
        self.lemma_same_sweep(a, b, iteration, point, order, chain);
        self.lemma_same_turn(a, b, iteration, point, chain.last().routes, net);
        if error is CongestionNotResolved {
            let route = choose|route: Arc<NetRoute>|
                {
                    &&& self.is_turn(a, iteration, point, chain.last().routes, net, Ok(*route))
                    &&& slot_fits(
                        Some(route),
                        self.graph.device.wires@.len() as int,
                        self.graph.device.pips@.len() as int,
                    )
                    &&& #[trigger] enters_full(chain.last().routes, net as int, Some(route))
                };
            assert(self.is_turn(b, iteration, point, chain.last().routes, net, Ok(*route)));
            assert(enters_full(chain.last().routes, net as int, Some(route)));
        }
        assert(self.halts(b, iteration, point, chain.last().routes, net, error));
    }

    /// A course depends on the estimates alone.
    proof fn lemma_same_course(
        &self,
        a: RouteSearch,
        b: RouteSearch,
        routes: Seq<Option<Arc<NetRoute>>>,
        points: Seq<NegotiationPoint>,
    )
        requires
            a.same_estimates(&b),
            self.is_course(a, routes, points),
        ensures
            self.is_course(b, routes, points),
    {
        assert forall|i: int| 0 <= i < points.len() - 1 implies #[trigger] self.is_iteration_at(
            b,
            points,
            i,
        ) by {
            assert(self.is_iteration_at(a, points, i));
            let (last, events) = choose|last: Stage, events: Seq<RoutingProgress>|
                {
                    &&& #[trigger] self.sweeps(a, i, points[i], last, events)
                    &&& points[i + 1].log == points[i].log + events
                    &&& self.is_sequel(points[i].detector, last, points[i + 1])
                };
            self.lemma_same_sweeps(a, b, i, points[i], last, events);
        }
    }

    /// What a negotiation comes to depends on the estimates alone.
    proof fn lemma_same_negotiation(
        &self,
        a: RouteSearch,
        b: RouteSearch,
        routes: Seq<Option<Arc<NetRoute>>>,
        settled: Seq<Option<Arc<NetRoute>>>,
        log: Seq<RoutingProgress>,
    )
        requires
            a.same_estimates(&b),
            self.negotiates(a, routes, settled, log),
        ensures
            self.negotiates(b, routes, settled, log),
    {
        let (points, last, events) = choose|
            points: Seq<NegotiationPoint>,
            last: Stage,
            events: Seq<RoutingProgress>,
        |
            {
                &&& #[trigger] self.is_course(a, routes, points)
                &&& points.len() <= self.iteration_limit()
                &&& #[trigger] self.sweeps(a, points.len() - 1, points.last(), last, events)
                &&& last.routes == settled
                &&& log == points.last().log + events
                &&& crate::negotiate::within_capacity(self.graph.device, settled)
            };
        self.lemma_same_course(a, b, routes, points);
        self.lemma_same_sweeps(a, b, points.len() - 1, points.last(), last, events);
    }

    /// Why a negotiation fails depends on the estimates alone.
    proof fn lemma_same_failure(
        &self,
        a: RouteSearch,
        b: RouteSearch,
        routes: Seq<Option<Arc<NetRoute>>>,
        error: PnrError,
        log: Seq<RoutingProgress>,
    )
        requires
            a.same_estimates(&b),
            self.gives_up(a, routes, error, log),
        ensures
            self.gives_up(b, routes, error, log),
    {
        if self.runs_out(a, routes, error, log) {
            if let PnrError::CongestionNotResolved { iterations, overused_wires, overused_pips } =
                error {
                if exists|points: Seq<NegotiationPoint>|
                    {
                        &&& #[trigger] self.is_course(a, routes, points)
                        &&& points.len() == self.iteration_limit() + 1
                        &&& self.overuses(points.last().routes, overused_wires, overused_pips)
                        &&& log == points.last().log
                    } {
                    let points = choose|points: Seq<NegotiationPoint>|
                        {
                            &&& #[trigger] self.is_course(a, routes, points)
                            &&& points.len() == self.iteration_limit() + 1
                            &&& self.overuses(
                                points.last().routes,
                                overused_wires,
                                overused_pips,
                            )
                            &&& log == points.last().log
                        };
                    self.lemma_same_course(a, b, routes, points);
                }
            }
            assert(self.runs_out(b, routes, error, log));
        } else {
            let (points, events) = choose|
                points: Seq<NegotiationPoint>,
                events: Seq<RoutingProgress>,
            |
                {
                    &&& #[trigger] self.is_course(a, routes, points)
                    &&& points.len() <= self.iteration_limit()
                    &&& #[trigger] self.stops(a, points.len() - 1, points.last(), error, events)
                    &&& log == points.last().log + events
                };
            self.lemma_same_course(a, b, routes, points);
            self.lemma_same_stops(a, b, points.len() - 1, points.last(), error, events);
        }
    }
}

/// A reused workspace gives what a fresh one gives: whatever two ready workspaces
/// hold, the routes, the failures, and the events that a negotiation from the
/// same routes may come to are the same for both.
pub proof fn a_reused_workspace_gives_what_a_fresh_one_gives(
    trial: Trial<'_>,
    reused: RoutingWorkspace,
    fresh: RoutingWorkspace,
    routes: Seq<Option<Arc<NetRoute>>>,
    settled: Seq<Option<Arc<NetRoute>>>,
    error: PnrError,
    log: Seq<RoutingProgress>,
)
    requires
        reused.is_ready(),
        fresh.is_ready(),
    ensures
        trial.negotiates(reused.search, routes, settled, log) == trial.negotiates(
            fresh.search,
            routes,
            settled,
            log,
        ),
        trial.gives_up(reused.search, routes, error, log) == trial.gives_up(
            fresh.search,
            routes,
            error,
            log,
        ),
{
    let a = reused.search;
    let b = fresh.search;
    if trial.negotiates(a, routes, settled, log) {
        trial.lemma_same_negotiation(a, b, routes, settled, log);
    }
    if trial.negotiates(b, routes, settled, log) {
        trial.lemma_same_negotiation(b, a, routes, settled, log);
    }
    if trial.gives_up(a, routes, error, log) {
        trial.lemma_same_failure(a, b, routes, error, log);
    }
    if trial.gives_up(b, routes, error, log) {
        trial.lemma_same_failure(b, a, routes, error, log);
    }
}

} // verus!
