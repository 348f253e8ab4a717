//! A cohort comes to one result.

use std::sync::Arc;

use vstd::prelude::*;

use crate::device::{Device, UnifiedGraph};
use crate::eco::LegalRouteEcoOptions;
use crate::eco_nets::{
    cohort_answer, cohort_comes_to, cohort_refused, is_rebuild_order, ranks_net, Cohort,
    NetPriority,
};
use crate::eco_stage::{
    estimates_with, is_halted, is_hard_router, is_regrowth, is_room, is_stuck, search_halts,
    searched,
};
use crate::error::PnrError;
use crate::growth_unique::{
    are_twins, lemma_grows_or_strands, lemma_grows_unique, lemma_same_slices,
    lemma_strands_unique, same_arcs, same_failure,
};
use crate::model::{NetId, PipId};
use crate::negotiate::within_capacity;
use crate::net_growth::NetRouter;
use crate::net_state::locked_arcs;
use crate::occupancy::{pip_sets, slot_pips, slot_wires, users, wire_sets};
use crate::ordered::{increasing, lemma_increasing_is_canonical, OrderedKey};
use crate::placement::Placement;
use crate::route::{NetRoute, RouteArc};
use crate::route_shape::is_tree;
use crate::routing::{used_pips, PnrResult};
use crate::routing_constraints::RoutingConstraints;
use crate::routing_costs::RoutingCosts;
use crate::search::{MetResources, RouteSearch};
use crate::workspace::{filled, RoutingWorkspace};

verus! {

/// Both routes serve one net by the same arcs and count the same uses.
pub open spec fn same_route(a: NetRoute, b: NetRoute) -> bool {
    &&& a.same_arcs(&b)
    &&& a.wire_refs@ == b.wire_refs@
    &&& a.pip_refs@ == b.pip_refs@
}

/// Both slots are empty, or hold the same route.
pub open spec fn same_slot(a: Option<Arc<NetRoute>>, b: Option<Arc<NetRoute>>) -> bool {
    match (a, b) {
        (Some(x), Some(y)) => same_route(*x, *y),
        (None, None) => true,
        _ => false,
    }
}

/// The slots hold the same routes.
pub open spec fn same_slots(
    a: Seq<Option<Arc<NetRoute>>>,
    b: Seq<Option<Arc<NetRoute>>>,
) -> bool {
    &&& a.len() == b.len()
    &&& forall|i: int| 0 <= i < a.len() ==> same_slot(#[trigger] a[i], b[i])
}

/// The same slots use the same resources.
pub proof fn lemma_same_sets(a: Seq<Option<Arc<NetRoute>>>, b: Seq<Option<Arc<NetRoute>>>)
    requires
        same_slots(a, b),
    ensures
        wire_sets(a) == wire_sets(b),
        pip_sets(a) == pip_sets(b),
{
    assert forall|i: int| 0 <= i < a.len() implies wire_sets(a)[i] == wire_sets(b)[i]
        && pip_sets(a)[i] == pip_sets(b)[i] by {
        assert(same_slot(a[i], b[i]));
        assert(slot_wires(a[i]) =~= slot_wires(b[i]));
        assert(slot_pips(a[i]) =~= slot_pips(b[i]));
    }
    assert(wire_sets(a) =~= wire_sets(b));
    assert(pip_sets(a) =~= pip_sets(b));
}

/// Rooms of the same slots hold the same.
proof fn lemma_same_room(
    device: &Device,
    a: Seq<Option<Arc<NetRoute>>>,
    b: Seq<Option<Arc<NetRoute>>>,
    x: RoutingWorkspace,
    y: RoutingWorkspace,
)
    requires
        same_slots(a, b),
        is_room(device, a, x),
        is_room(device, b, y),
    ensures
        x.wires.occupancy@ == y.wires.occupancy@,
        x.pips.occupancy@ == y.pips.occupancy@,
        x.wires.capacities@ == y.wires.capacities@,
        x.pips.capacities@ == y.pips.capacities@,
        x.wires.congestion@ == y.wires.congestion@,
        x.pips.congestion@ == y.pips.congestion@,
        x.wire_points@ == y.wire_points@,
{
    lemma_same_sets(a, b);
    assert(x.wires.occupancy@ =~= y.wires.occupancy@) by {
        assert forall|r: int| 0 <= r < x.wires.occupancy@.len() implies x.wires.occupancy@[r]
            == y.wires.occupancy@[r] by {
            assert(x.wires.occupancy@[r] == users(wire_sets(a), r));
            assert(y.wires.occupancy@[r] == users(wire_sets(b), r));
        }
    }
    assert(x.pips.occupancy@ =~= y.pips.occupancy@) by {
        assert forall|r: int| 0 <= r < x.pips.occupancy@.len() implies x.pips.occupancy@[r]
            == y.pips.occupancy@[r] by {
            assert(x.pips.occupancy@[r] == users(pip_sets(a), r));
            assert(y.pips.occupancy@[r] == users(pip_sets(b), r));
        }
    }
    assert(x.wires.capacities@ =~= y.wires.capacities@);
    assert(x.pips.capacities@ =~= y.pips.capacities@);
    assert(x.wires.congestion@ =~= y.wires.congestion@);
    assert(x.pips.congestion@ =~= y.pips.congestion@);
    assert(x.wire_points@ =~= y.wire_points@);
}

/// Routers of the same room are twins.
proof fn lemma_hard_twins(
    a: NetRouter<'_>,
    b: NetRouter<'_>,
    graph: UnifiedGraph<'_>,
    placement: &Placement,
    constraints: &RoutingConstraints,
    costs: &RoutingCosts,
    x: RoutingWorkspace,
    y: RoutingWorkspace,
)
    requires
        is_hard_router(a, graph, placement, constraints, costs, x, true),
        is_hard_router(b, graph, placement, constraints, costs, y, true),
        x.wires.occupancy@ == y.wires.occupancy@,
        x.pips.occupancy@ == y.pips.occupancy@,
        x.wires.capacities@ == y.wires.capacities@,
        x.pips.capacities@ == y.pips.capacities@,
        x.wires.congestion@ == y.wires.congestion@,
        x.pips.congestion@ == y.pips.congestion@,
        x.wire_points@ == y.wire_points@,
    ensures
        are_twins(a, b),
{
    lemma_same_slices(a.wire_congestion, b.wire_congestion);
    lemma_same_slices(a.pip_congestion, b.pip_congestion);
    lemma_same_slices(a.blocked_pip_words, b.blocked_pip_words);
    lemma_same_slices((a.hard_occupancy->0).wires, (b.hard_occupancy->0).wires);
    lemma_same_slices((a.hard_occupancy->0).pips, (b.hard_occupancy->0).pips);
    lemma_same_slices(a.metadata.wire_points, b.metadata.wire_points);
    lemma_same_slices(a.metadata.wire_capacities, b.metadata.wire_capacities);
    lemma_same_slices(a.metadata.pip_capacities, b.metadata.pip_capacities);
}

/// What the search for a route of one net ends with.
pub ghost enum Ending {
    /// A route.
    Route(NetRoute),
    /// No route.
    Nothing,
    /// An error.
    Failure(PnrError),
}

/// The search for a route of the net among the slots ends so.
pub open spec fn ends(
    graph: UnifiedGraph<'_>,
    placement: &Placement,
    constraints: &RoutingConstraints,
    costs: &RoutingCosts,
    delay_per_tile_ps: u64,
    slots: Seq<Option<Arc<NetRoute>>>,
    net: NetId,
    fixed: Seq<RouteArc>,
    ending: Ending,
) -> bool {
    match ending {
        Ending::Route(route) => searched(
            graph,
            placement,
            constraints,
            costs,
            delay_per_tile_ps,
            slots,
            net,
            fixed,
            Some(route),
        ),
        Ending::Nothing => searched(
            graph,
            placement,
            constraints,
            costs,
            delay_per_tile_ps,
            slots,
            net,
            fixed,
            None,
        ),
        Ending::Failure(error) => !(error is Unroutable) && search_halts(
            graph,
            placement,
            constraints,
            costs,
            delay_per_tile_ps,
            slots,
            net,
            fixed,
            error,
        ),
    }
}

/// The search ends with the route.
pub open spec fn finding(route: Arc<NetRoute>) -> Ending {
    Ending::Route(*route)
}

/// Both endings are the same.
pub open spec fn same_ending(a: Ending, b: Ending) -> bool {
    match (a, b) {
        (Ending::Route(x), Ending::Route(y)) => same_route(x, y) && is_tree(x) == is_tree(y),
        (Ending::Nothing, Ending::Nothing) => true,
        (Ending::Failure(x), Ending::Failure(y)) => same_failure(x, y),
        _ => false,
    }
}

/// A router, its search, and how the growth ended in it.
ghost struct Witness<'a> {
    router: NetRouter<'a>,
    search: RouteSearch,
    room: RoutingWorkspace,
    met: MetResources,
    error: Option<PnrError>,
}

/// How the search ended.
proof fn lemma_witness<'a>(
    graph: UnifiedGraph<'a>,
    placement: &'a Placement,
    constraints: &'a RoutingConstraints,
    costs: &'a RoutingCosts,
    delay_per_tile_ps: u64,
    slots: Seq<Option<Arc<NetRoute>>>,
    net: NetId,
    fixed: Seq<RouteArc>,
    ending: Ending,
) -> (found: Witness<'a>)
    requires
        ends(
            graph,
            placement,
            constraints,
            costs,
            delay_per_tile_ps,
            slots,
            net,
            fixed,
            ending,
        ),
    ensures
        is_room(graph.device, slots, found.room),
        is_hard_router(found.router, graph, placement, constraints, costs, found.room, true),
        estimates_with(found.search, delay_per_tile_ps),
        match ending {
            Ending::Route(route) => found.router.grows(
                net,
                fixed,
                found.search,
                route,
                found.met,
            ),
            Ending::Nothing => found.error matches Some(error) && error is Unroutable
                && found.router.strands(net, fixed, found.search, error, found.met),
            Ending::Failure(error) => found.router.strands(
                net,
                fixed,
                found.search,
                error,
                found.met,
            ),
        },
{
    match ending {
        Ending::Route(route) => {
            let room = choose|room: RoutingWorkspace|
                #[trigger] is_room(graph.device, slots, room) && is_regrowth(
                    graph,
                    placement,
                    constraints,
                    costs,
                    room,
                    delay_per_tile_ps,
                    net,
                    fixed,
                    route,
                );
            let (router, search, met) = choose|
                router: NetRouter<'_>,
                search: RouteSearch,
                met: MetResources,
            |
                {
                    &&& is_hard_router(router, graph, placement, constraints, costs, room, true)
                    &&& estimates_with(search, delay_per_tile_ps)
                    &&& #[trigger] router.grows(net, fixed, search, route, met)
                };
            Witness { router, search, room, met, error: None }
        },
        Ending::Nothing => {
            let room = choose|room: RoutingWorkspace|
                #[trigger] is_room(graph.device, slots, room) && is_stuck(
                    graph,
                    placement,
                    constraints,
                    costs,
                    room,
                    delay_per_tile_ps,
                    net,
                    fixed,
                );
            let (router, search, error, met) = choose|
                router: NetRouter<'_>,
                search: RouteSearch,
                error: PnrError,
                met: MetResources,
            |
                {
                    &&& is_hard_router(router, graph, placement, constraints, costs, room, true)
                    &&& estimates_with(search, delay_per_tile_ps)
                    &&& error is Unroutable
                    &&& router.net_failure(net, error)
                    &&& #[trigger] router.strands(net, fixed, search, error, met)
                };
            Witness { router, search, room, met, error: Some(error) }
        },
        Ending::Failure(error) => {
            let room = choose|room: RoutingWorkspace|
                #[trigger] is_room(graph.device, slots, room) && is_halted(
                    graph,
                    placement,
                    constraints,
                    costs,
                    room,
                    delay_per_tile_ps,
                    net,
                    fixed,
                    error,
                );
            let (router, search, met) = choose|
                router: NetRouter<'_>,
                search: RouteSearch,
                met: MetResources,
            |
                {
                    &&& is_hard_router(router, graph, placement, constraints, costs, room, true)
                    &&& estimates_with(search, delay_per_tile_ps)
                    &&& #[trigger] router.strands(net, fixed, search, error, met)
                };
            Witness { router, search, room, met, error: Some(error) }
        },
    }
}

/// The search for a route of one net ends in one way.
pub proof fn lemma_ending_unique(
    graph: UnifiedGraph<'_>,
    placement: &Placement,
    constraints: &RoutingConstraints,
    costs: &RoutingCosts,
    delay_per_tile_ps: u64,
    slots: Seq<Option<Arc<NetRoute>>>,
    others: Seq<Option<Arc<NetRoute>>>,
    net: NetId,
    fixed: Seq<RouteArc>,
    kept: Seq<RouteArc>,
    a: Ending,
    b: Ending,
)
    requires
        same_slots(slots, others),
        same_arcs(fixed, kept),
        ends(graph, placement, constraints, costs, delay_per_tile_ps, slots, net, fixed, a),
        ends(graph, placement, constraints, costs, delay_per_tile_ps, others, net, kept, b),
    ensures
        same_ending(a, b),
{
    let p = lemma_witness(
        graph,
        placement,
        constraints,
        costs,
        delay_per_tile_ps,
        slots,
        net,
        fixed,
        a,
    );
    let q = lemma_witness(
        graph,
        placement,
        constraints,
        costs,
        delay_per_tile_ps,
        others,
        net,
        kept,
        b,
    );
    lemma_same_room(graph.device, slots, others, p.room, q.room);
    lemma_hard_twins(
        p.router,
        q.router,
        graph,
        placement,
        constraints,
        costs,
        p.room,
        q.room,
    );
    assert(are_twins(q.router, p.router));
    assert(same_arcs(kept, fixed)) by {
        assert forall|i: int| 0 <= i < kept.len() implies (#[trigger] kept[i]).same(&fixed[i]) by {
            assert(fixed[i].same(&kept[i]));
        }
    }
    match (a, b) {
        (Ending::Route(x), Ending::Route(y)) => {
            lemma_grows_unique(
                p.router,
                q.router,
                net,
                fixed,
                kept,
                p.search,
                q.search,
                x,
                y,
                p.met,
                q.met,
            );
        },
        (Ending::Route(x), Ending::Nothing) => {
            lemma_grows_or_strands(
                p.router,
                q.router,
                net,
                fixed,
                kept,
                p.search,
                q.search,
                x,
                q.error->0,
                p.met,
                q.met,
            );
        },
        (Ending::Route(x), Ending::Failure(y)) => {
            lemma_grows_or_strands(
                p.router,
                q.router,
                net,
                fixed,
                kept,
                p.search,
                q.search,
                x,
                y,
                p.met,
                q.met,
            );
        },
        (Ending::Nothing, Ending::Route(y)) => {
            lemma_grows_or_strands(
                q.router,
                p.router,
                net,
                kept,
                fixed,
                q.search,
                p.search,
                y,
                p.error->0,
                q.met,
                p.met,
            );
        },
        (Ending::Failure(x), Ending::Route(y)) => {
            lemma_grows_or_strands(
                q.router,
                p.router,
                net,
                kept,
                fixed,
                q.search,
                p.search,
                y,
                x,
                q.met,
                p.met,
            );
        },
        (Ending::Failure(x), Ending::Failure(y)) => {
            lemma_strands_unique(
                p.router,
                q.router,
                net,
                fixed,
                kept,
                p.search,
                q.search,
                x,
                y,
                p.met,
                q.met,
            );
        },
        (Ending::Nothing, Ending::Failure(y)) => {
            lemma_strands_unique(
                p.router,
                q.router,
                net,
                fixed,
                kept,
                p.search,
                q.search,
                p.error->0,
                y,
                p.met,
                q.met,
            );
        },
        (Ending::Failure(x), Ending::Nothing) => {
            lemma_strands_unique(
                p.router,
                q.router,
                net,
                fixed,
                kept,
                p.search,
                q.search,
                x,
                q.error->0,
                p.met,
                q.met,
            );
        },
        (Ending::Nothing, Ending::Nothing) => {},
    }
}

/// Cohorts of the same inputs and members.
spec fn are_kin(a: Cohort<'_>, b: Cohort<'_>) -> bool {
    &&& a.graph == b.graph
    &&& a.incumbent == b.incumbent
    &&& a.constraints == b.constraints
    &&& a.costs == b.costs
    &&& a.delay_per_tile_ps == b.delay_per_tile_ps
    &&& a.selected@ == b.selected@
    &&& forall|n: NetId| #[trigger]
        a.selected@.contains(n) ==> n.0 < a.incumbent.routes@.len()
}

/// How the search for a net of the cohort ends.
spec fn turns_out(
    cohort: Cohort<'_>,
    slots: Seq<Option<Arc<NetRoute>>>,
    net: NetId,
    ending: Ending,
) -> bool {
    ends(
        cohort.graph,
        &cohort.incumbent.placement,
        cohort.constraints,
        cohort.costs,
        cohort.delay_per_tile_ps,
        slots,
        net,
        locked_arcs(cohort.constraints, net),
        ending,
    )
}

/// The search for a net of kin ends in one way.
proof fn lemma_turn_unique(
    a: Cohort<'_>,
    b: Cohort<'_>,
    slots: Seq<Option<Arc<NetRoute>>>,
    others: Seq<Option<Arc<NetRoute>>>,
    net: NetId,
    x: Ending,
    y: Ending,
)
    requires
        are_kin(a, b),
        same_slots(slots, others),
        turns_out(a, slots, net, x),
        turns_out(b, others, net, y),
    ensures
        same_ending(x, y),
{
    lemma_ending_unique(
        a.graph,
        &a.incumbent.placement,
        a.constraints,
        a.costs,
        a.delay_per_tile_ps,
        slots,
        others,
        net,
        locked_arcs(a.constraints, net),
        locked_arcs(b.constraints, net),
        x,
        y,
    );
}

/// Nets are rebuilt in one order.
proof fn lemma_order_unique(
    design: &crate::model::Design,
    costs: &RoutingCosts,
    selected: Set<NetId>,
    a: Seq<NetPriority>,
    b: Seq<NetPriority>,
)
    requires
        is_rebuild_order(design, costs, selected, a),
        is_rebuild_order(design, costs, selected, b),
    ensures
        a == b,
{
    lemma_order_increases(design, costs, selected, a);
    lemma_order_increases(design, costs, selected, b);
    assert forall|e: NetPriority| a.to_set().contains(e) == b.to_set().contains(e) by {
        if a.contains(e) {
            lemma_order_member(design, costs, selected, a, b, e);
        }
        if b.contains(e) {
            lemma_order_member(design, costs, selected, b, a, e);
        }
    }
    assert(a.to_set() =~= b.to_set());
    lemma_increasing_is_canonical(a, b);
}

/// The order increases.
proof fn lemma_order_increases(
    design: &crate::model::Design,
    costs: &RoutingCosts,
    selected: Set<NetId>,
    order: Seq<NetPriority>,
)
    requires
        is_rebuild_order(design, costs, selected, order),
    ensures
        increasing(order),
{
    assert forall|i: int, j: int| 0 <= i < j < order.len() implies (#[trigger] order[i]).rank() < (
    #[trigger] order[j]).rank() by {
        assert(order[i].rank() <= order[j].rank());
        if order[i].rank() == order[j].rank() {
            NetPriority::rank_is_injective(order[i], order[j]);
        }
    }
}

/// An entry of one order stands in the other.
proof fn lemma_order_member(
    design: &crate::model::Design,
    costs: &RoutingCosts,
    selected: Set<NetId>,
    a: Seq<NetPriority>,
    b: Seq<NetPriority>,
    entry: NetPriority,
)
    requires
        is_rebuild_order(design, costs, selected, a),
        is_rebuild_order(design, costs, selected, b),
        a.contains(entry),
    ensures
        b.contains(entry),
{
    let i = a.index_of(entry);
    assert(selected.contains(a[i].net));
    assert(ranks_net(b, entry.net));
    let j = choose|j: int| 0 <= j < b.len() && (#[trigger] b[j]).net == entry.net;
    assert(b[j] == entry);
}

/// A slot holds the same route as itself.
pub proof fn lemma_same_slot_self(slot: Option<Arc<NetRoute>>)
    ensures
        same_slot(slot, slot),
{
}

/// Kin rebuild the same routes, as far as the shorter course goes.
proof fn lemma_chain_unique(
    a: Cohort<'_>,
    b: Cohort<'_>,
    order: Seq<NetPriority>,
    x: Seq<Seq<Option<Arc<NetRoute>>>>,
    y: Seq<Seq<Option<Arc<NetRoute>>>>,
    count: int,
)
    requires
        are_kin(a, b),
        a.is_rebuild(order, x),
        b.is_rebuild(order, y),
        0 <= count < x.len(),
        count < y.len(),
    ensures
        same_slots(x[count], y[count]),
        x[count].len() == a.incumbent.routes@.len(),
    decreases count,
{
    if count == 0 {
        assert forall|i: int| 0 <= i < x[0].len() implies same_slot(#[trigger] x[0][i], y[0][i]) by {
            assert(a.slot_state(i, x[0][i], Set::empty()));
            assert(b.slot_state(i, y[0][i], Set::empty()));
            lemma_same_slot_self(x[0][i]);
        }
    } else {
        let at = count - 1;
        lemma_chain_unique(a, b, order, x, y, at);
        assert(a.is_rebuild_step(order, x, at));
        assert(b.is_rebuild_step(order, y, at));
        let net = order[at].net;
        assert(a.selected@.contains(order[at].net));
        let p = x[count][net.0 as int]->0;
        let q = y[count][net.0 as int]->0;
        lemma_turn_unique(
            a,
            b,
            x[at],
            y[at],
            net,
            finding(p),
            finding(q),
        );
        assert forall|i: int| 0 <= i < x[count].len() implies same_slot(
            #[trigger] x[count][i],
            y[count][i],
        ) by {
            assert(same_slot(x[at][i], y[at][i]));
        }
    }
}

/// The same slots with the same route in one of them fit alike.
proof fn lemma_same_fit(
    device: &Device,
    slots: Seq<Option<Arc<NetRoute>>>,
    others: Seq<Option<Arc<NetRoute>>>,
    index: int,
    x: Arc<NetRoute>,
    y: Arc<NetRoute>,
)
    requires
        same_slots(slots, others),
        0 <= index < slots.len(),
        same_route(*x, *y),
    ensures
        within_capacity(device, slots.update(index, Some(x))) == within_capacity(
            device,
            others.update(index, Some(y)),
        ),
{
    let a = slots.update(index, Some(x));
    let b = others.update(index, Some(y));
    assert forall|i: int| 0 <= i < a.len() implies same_slot(#[trigger] a[i], b[i]) by {
        assert(same_slot(slots[i], others[i]));
    }
    lemma_same_sets(a, b);
}

/// A net that is rebuilt is neither refused nor without a route.
proof fn lemma_rebuilt_is_not_refused(
    a: Cohort<'_>,
    b: Cohort<'_>,
    order: Seq<NetPriority>,
    chain: Seq<Seq<Option<Arc<NetRoute>>>>,
    at: int,
    slots: Seq<Option<Arc<NetRoute>>>,
    error: PnrError,
)
    requires
        are_kin(a, b),
        0 <= at,
        a.is_rebuild_step(order, chain, at),
        same_slots(chain[at], slots),
        order[at].net.0 < chain[at].len(),
    ensures
        !b.net_refused(slots, order[at].net, error),
        !b.net_searched(slots, order[at].net, None),
{
    let net = order[at].net;
    let route = chain[at + 1][net.0 as int]->0;
    let found = finding(route);
    assert(turns_out(a, chain[at], net, found));
    if b.net_searched(slots, net, None) {
        lemma_turn_unique(a, b, chain[at], slots, net, found, Ending::Nothing);
    }
    if b.net_refused(slots, net, error) {
        if let PnrError::InvalidRoutingConstraint { net: reported, reason } = error {
            if b.is_broken(slots, net, reason@) {
                let other = choose|other: NetRoute|
                    #[trigger] b.net_searched(slots, net, Some(other)) && !is_tree(other);
                lemma_turn_unique(a, b, chain[at], slots, net, found, Ending::Route(other));
            } else {
                let other = choose|other: Arc<NetRoute>|
                    b.net_searched(slots, net, Some(*other)) && !(#[trigger] within_capacity(
                        b.graph.device,
                        slots.update(net.0 as int, Some(other)),
                    ));
                lemma_turn_unique(a, b, chain[at], slots, net, found, finding(other));
                lemma_same_fit(a.graph.device, chain[at], slots, net.0 as int, route, other);
            }
        } else {
            lemma_turn_unique(a, b, chain[at], slots, net, found, Ending::Failure(error));
        }
    }
}

/// A net without a route is not refused.
proof fn lemma_stuck_is_not_refused(
    a: Cohort<'_>,
    b: Cohort<'_>,
    slots: Seq<Option<Arc<NetRoute>>>,
    others: Seq<Option<Arc<NetRoute>>>,
    net: NetId,
    error: PnrError,
)
    requires
        are_kin(a, b),
        same_slots(slots, others),
        a.net_searched(slots, net, None),
    ensures
        !b.net_refused(others, net, error),
{
    if b.net_refused(others, net, error) {
        if let PnrError::InvalidRoutingConstraint { net: reported, reason } = error {
            if b.is_broken(others, net, reason@) {
                let other = choose|other: NetRoute|
                    #[trigger] b.net_searched(others, net, Some(other)) && !is_tree(other);
                lemma_turn_unique(
                    a,
                    b,
                    slots,
                    others,
                    net,
                    Ending::Nothing,
                    Ending::Route(other),
                );
            } else {
                let other = choose|other: Arc<NetRoute>|
                    b.net_searched(others, net, Some(*other)) && !(#[trigger] within_capacity(
                        b.graph.device,
                        others.update(net.0 as int, Some(other)),
                    ));
                lemma_turn_unique(
                    a,
                    b,
                    slots,
                    others,
                    net,
                    Ending::Nothing,
                    finding(other),
                );
            }
        } else {
            lemma_turn_unique(a, b, slots, others, net, Ending::Nothing, Ending::Failure(error));
        }
    }
}

/// Kin that rebuild every net come to the same slots, and do not get stuck.
proof fn lemma_rebuilds_unique(
    a: Cohort<'_>,
    b: Cohort<'_>,
    slots: Seq<Option<Arc<NetRoute>>>,
    error: PnrError,
)
    requires
        are_kin(a, b),
        a.rebuilds_to(slots),
    ensures
        forall|others: Seq<Option<Arc<NetRoute>>>| #[trigger]
            b.rebuilds_to(others) ==> same_slots(slots, others),
        !b.rebuild_stuck(),
        !b.refused(error),
{
    let (order, x) = choose|order: Seq<NetPriority>, chain: Seq<Seq<Option<Arc<NetRoute>>>>|
        #[trigger] a.is_rebuild(order, chain) && chain.len() == order.len() + 1 && chain.last()
            == slots;
    assert forall|others: Seq<Option<Arc<NetRoute>>>| #[trigger]
        b.rebuilds_to(others) implies same_slots(slots, others) by {
        let (turns, y) = choose|order: Seq<NetPriority>, chain: Seq<Seq<Option<Arc<NetRoute>>>>|
            #[trigger] b.is_rebuild(order, chain) && chain.len() == order.len() + 1
                && chain.last() == others;
        lemma_order_unique(a.graph.design, a.costs, a.selected@, order, turns);
        lemma_chain_unique(a, b, order, x, y, x.len() - 1);
    }
    if b.rebuild_stuck() {
        let (turns, y) = choose|order: Seq<NetPriority>, chain: Seq<Seq<Option<Arc<NetRoute>>>>|
            #[trigger] b.is_rebuild(order, chain) && chain.len() <= order.len()
                && b.net_searched(chain.last(), order[chain.len() - 1].net, None);
        lemma_order_unique(a.graph.design, a.costs, a.selected@, order, turns);
        let at = y.len() - 1;
        lemma_chain_unique(a, b, order, x, y, at);
        assert(a.is_rebuild_step(order, x, at));
        assert(a.selected@.contains(order[at].net));
        lemma_rebuilt_is_not_refused(a, b, order, x, at, y[at], error);
    }
    if b.refused(error) {
        let (turns, y) = choose|order: Seq<NetPriority>, chain: Seq<Seq<Option<Arc<NetRoute>>>>|
            #[trigger] b.is_rebuild(order, chain) && chain.len() <= order.len()
                && b.net_refused(chain.last(), order[chain.len() - 1].net, error);
        lemma_order_unique(a.graph.design, a.costs, a.selected@, order, turns);
        let at = y.len() - 1;
        lemma_chain_unique(a, b, order, x, y, at);
        assert(a.is_rebuild_step(order, x, at));
        assert(a.selected@.contains(order[at].net));
        lemma_rebuilt_is_not_refused(a, b, order, x, at, y[at], error);
    }
}

/// Kin that get stuck are not refused.
proof fn lemma_stuck_unique(a: Cohort<'_>, b: Cohort<'_>, error: PnrError)
    requires
        are_kin(a, b),
        a.rebuild_stuck(),
    ensures
        !b.refused(error),
{
    let (order, x) = choose|order: Seq<NetPriority>, chain: Seq<Seq<Option<Arc<NetRoute>>>>|
        #[trigger] a.is_rebuild(order, chain) && chain.len() <= order.len() && a.net_searched(
            chain.last(),
            order[chain.len() - 1].net,
            None,
        );
    if b.refused(error) {
        let (turns, y) = choose|order: Seq<NetPriority>, chain: Seq<Seq<Option<Arc<NetRoute>>>>|
            #[trigger] b.is_rebuild(order, chain) && chain.len() <= order.len()
                && b.net_refused(chain.last(), order[chain.len() - 1].net, error);
        lemma_order_unique(a.graph.design, a.costs, a.selected@, order, turns);
        if y.len() < x.len() {
            let at = y.len() - 1;
            lemma_chain_unique(a, b, order, x, y, at);
            assert(a.is_rebuild_step(order, x, at));
            assert(a.selected@.contains(order[at].net));
        lemma_rebuilt_is_not_refused(a, b, order, x, at, y[at], error);
        } else {
            let at = x.len() - 1;
            lemma_chain_unique(a, b, order, x, y, at);
            if x.len() < y.len() {
                assert(b.is_rebuild_step(order, y, at));
                assert(same_slots(y[at], x[at])) by {
                    lemma_chain_unique(b, a, order, y, x, at);
                }
                assert(a.selected@.contains(order[at].net));
                lemma_rebuilt_is_not_refused(b, a, order, y, at, x[at], error);
            } else {
                lemma_stuck_is_not_refused(a, b, x[at], y[at], order[at].net, error);
            }
        }
    }
}

/// Both routings have the same placement, the same routes, and the same count.
pub open spec fn same_routing(a: PnrResult, b: PnrResult) -> bool {
    &&& a.placement.same(&b.placement)
    &&& a.routes@.len() == b.routes@.len()
    &&& forall|i: int|
        0 <= i < a.routes@.len() ==> (#[trigger] a.routes@[i]).same_arcs(&*b.routes@[i])
    &&& a.total_pips == b.total_pips
}

/// Both answers are the same candidate, or both are none, or both are errors.
pub open spec fn same_answer(
    a: Result<Option<PnrResult>, PnrError>,
    b: Result<Option<PnrResult>, PnrError>,
) -> bool {
    match (a, b) {
        (Ok(Some(x)), Ok(Some(y))) => same_routing(x, y),
        (Ok(None), Ok(None)) => true,
        (Err(_), Err(_)) => true,
        _ => false,
    }
}

/// Routes of the same slots use the same PIPs.
pub proof fn lemma_same_used_pips(a: Seq<Arc<NetRoute>>, b: Seq<Arc<NetRoute>>)
    requires
        same_slots(filled(a), filled(b)),
    ensures
        used_pips(a) == used_pips(b),
        a.len() == b.len(),
        forall|i: int| 0 <= i < a.len() ==> (#[trigger] a[i]).same_arcs(&*b[i]),
{
    assert(filled(a).len() == filled(b).len());
    assert forall|i: int| 0 <= i < a.len() implies same_route(*#[trigger] a[i], *b[i]) by {
        assert(same_slot(filled(a)[i], filled(b)[i]));
    }
    assert forall|p: PipId| used_pips(a).contains(p) == used_pips(b).contains(p) by {
        if used_pips(a).contains(p) {
            let i = choose|i: int| 0 <= i < a.len() && (#[trigger] a[i]).has_pip(p);
            assert(same_route(*a[i], *b[i]));
            assert(b[i].has_pip(p));
        }
        if used_pips(b).contains(p) {
            let i = choose|i: int| 0 <= i < b.len() && (#[trigger] b[i]).has_pip(p);
            assert(same_route(*a[i], *b[i]));
            assert(a[i].has_pip(p));
        }
    }
    assert(used_pips(a) =~= used_pips(b));
}

/// What a cohort is made of.
proof fn lemma_cohort_of<'a>(
    graph: UnifiedGraph<'a>,
    incumbent: &'a PnrResult,
    constraints: &'a RoutingConstraints,
    costs: &'a RoutingCosts,
    delay_per_tile_ps: u64,
    selected: Set<NetId>,
    routes: Option<Seq<Arc<NetRoute>>>,
) -> (cohort: Cohort<'a>)
    requires
        cohort_comes_to(
            graph,
            incumbent,
            constraints,
            costs,
            delay_per_tile_ps,
            selected,
            routes,
        ),
    ensures
        cohort.is_of(graph, incumbent, constraints, costs, delay_per_tile_ps, selected),
        match routes {
            Some(routes) => cohort.rebuilds_to(filled(routes)),
            None => cohort.comes_to_nothing(),
        },
{
    choose|cohort: Cohort<'_>|
        {
            &&& #[trigger] cohort.is_of(
                graph,
                incumbent,
                constraints,
                costs,
                delay_per_tile_ps,
                selected,
            )
            &&& match routes {
                Some(routes) => cohort.rebuilds_to(filled(routes)),
                None => cohort.comes_to_nothing(),
            }
        }
}

/// The members of a sound request have routes.
proof fn lemma_selected_in_range(
    graph: UnifiedGraph<'_>,
    incumbent: &PnrResult,
    net_ids: Seq<NetId>,
    options: LegalRouteEcoOptions,
)
    requires
        crate::eco_nets::cohort_asked(graph.design, incumbent, net_ids, options),
    ensures
        forall|n: NetId| #[trigger]
            net_ids.to_set().contains(n) ==> n.0 < incumbent.routes@.len(),
{
    assert forall|n: NetId| #[trigger] net_ids.to_set().contains(n) implies n.0
        < incumbent.routes@.len() by {
        let k = net_ids.index_of(n);
        assert(net_ids[k].0 < graph.design.nets@.len());
    }
}

/// Where a cohort answers with a candidate, a cohort of the same members does so with
/// the same.
proof fn lemma_candidate_unique(
    graph: UnifiedGraph<'_>,
    incumbent: &PnrResult,
    constraints: &RoutingConstraints,
    costs: &RoutingCosts,
    a: Seq<NetId>,
    b: Seq<NetId>,
    options: LegalRouteEcoOptions,
    x: PnrResult,
    y: Result<Option<PnrResult>, PnrError>,
)
    requires
        a.to_set() == b.to_set(),
        cohort_answer(graph, incumbent, constraints, costs, a, options, Ok(Some(x))),
        cohort_answer(graph, incumbent, constraints, costs, b, options, y),
        y is Ok,
    ensures
        y matches Ok(Some(other)) && same_routing(x, other),
{
    let delay = options.estimate_delay_per_tile_ps;
    let selected = a.to_set();
    lemma_selected_in_range(graph, incumbent, a, options);
    let p = lemma_cohort_of(
        graph,
        incumbent,
        constraints,
        costs,
        delay,
        selected,
        Some(x.routes@),
    );
    if let Ok(Some(other)) = y {
        let q = lemma_cohort_of(
            graph,
            incumbent,
            constraints,
            costs,
            delay,
            selected,
            Some(other.routes@),
        );
        lemma_rebuilds_unique(p, q, filled(x.routes@), arbitrary());
        assert(same_slots(filled(x.routes@), filled(other.routes@)));
        lemma_same_used_pips(x.routes@, other.routes@);
    } else {
        let q = lemma_cohort_of(graph, incumbent, constraints, costs, delay, selected, None);
        lemma_rebuilds_unique(p, q, filled(x.routes@), arbitrary());
        let slots = choose|slots: Seq<Option<Arc<NetRoute>>>| #[trigger]
            q.rebuilds_to(slots) && !q.differs(slots, q.selected@);
        assert(same_slots(filled(x.routes@), slots));
        let n = choose|n: NetId| #[trigger]
            selected.contains(n) && !x.routes@[n.0 as int].same_arcs(
                &*incumbent.routes@[n.0 as int],
            );
        let i = n.0 as int;
        assert(a.contains(n));
        let k = a.index_of(n);
        assert(a[k].0 < graph.design.nets@.len());
        assert(same_slot(filled(x.routes@)[i], slots[i]));
        let route = slots[i]->0;
        assert(route.same_arcs(&*incumbent.routes@[i]));
        assert forall|j: int| 0 <= j < x.routes@[i].arcs@.len() implies (
        #[trigger] x.routes@[i].arcs@[j]).same(&incumbent.routes@[i].arcs@[j]) by {
            assert(x.routes@[i].arcs@[j].same(&route.arcs@[j]));
            assert(route.arcs@[j].same(&incumbent.routes@[i].arcs@[j]));
        }
    }
}

/// Where a cohort answers, a cohort of the same members does so too.
proof fn lemma_answer_is_no_error(
    graph: UnifiedGraph<'_>,
    incumbent: &PnrResult,
    constraints: &RoutingConstraints,
    costs: &RoutingCosts,
    a: Seq<NetId>,
    b: Seq<NetId>,
    options: LegalRouteEcoOptions,
    x: Option<PnrResult>,
    error: PnrError,
)
    requires
        a.to_set() == b.to_set(),
        cohort_answer(graph, incumbent, constraints, costs, a, options, Ok(x)),
    ensures
        !cohort_answer(graph, incumbent, constraints, costs, b, options, Err(error)),
{
    let delay = options.estimate_delay_per_tile_ps;
    let selected = a.to_set();
    crate::eco_nets::lemma_same_request(graph.design, incumbent, a, b, options);
    lemma_selected_in_range(graph, incumbent, a, options);
    let routes = match x {
        Some(x) => Some(x.routes@),
        None => None,
    };
    let p = lemma_cohort_of(graph, incumbent, constraints, costs, delay, selected, routes);
    if cohort_answer(graph, incumbent, constraints, costs, b, options, Err(error)) {
        assert(cohort_refused(graph, incumbent, constraints, costs, delay, selected, error));
        let q = choose|q: Cohort<'_>|
            {
                &&& q.is_of(graph, incumbent, constraints, costs, delay, selected)
                &&& #[trigger] q.refused(error)
            };
        if let Some(x) = x {
            lemma_rebuilds_unique(p, q, filled(x.routes@), error);
        } else if p.rebuild_stuck() {
            lemma_stuck_unique(p, q, error);
        } else {
            let slots = choose|slots: Seq<Option<Arc<NetRoute>>>| #[trigger]
                p.rebuilds_to(slots) && !p.differs(slots, p.selected@);
            lemma_rebuilds_unique(p, q, slots, error);
        }
    }
}

/// Two cohorts of the same members, in any order and with any repetitions, are
/// answered alike, whatever workspaces were handed in: by the same candidate, by
/// none, or by an error.
pub proof fn cohorts_of_one_set_are_answered_alike(
    graph: UnifiedGraph<'_>,
    incumbent: &PnrResult,
    constraints: &RoutingConstraints,
    costs: &RoutingCosts,
    a: Seq<NetId>,
    b: Seq<NetId>,
    options: LegalRouteEcoOptions,
    x: Result<Option<PnrResult>, PnrError>,
    y: Result<Option<PnrResult>, PnrError>,
)
    requires
        a.to_set() == b.to_set(),
        cohort_answer(graph, incumbent, constraints, costs, a, options, x),
        cohort_answer(graph, incumbent, constraints, costs, b, options, y),
    ensures
        same_answer(x, y),
{
    match (x, y) {
        (Ok(Some(p)), Ok(_)) => {
            lemma_candidate_unique(
                graph,
                incumbent,
                constraints,
                costs,
                a,
                b,
                options,
                p,
                y,
            );
        },
        (Ok(None), Ok(Some(q))) => {
            lemma_candidate_unique(
                graph,
                incumbent,
                constraints,
                costs,
                b,
                a,
                options,
                q,
                x,
            );
        },
        (Ok(p), Err(error)) => {
            lemma_answer_is_no_error(
                graph,
                incumbent,
                constraints,
                costs,
                a,
                b,
                options,
                p,
                error,
            );
        },
        (Err(error), Ok(q)) => {
            lemma_answer_is_no_error(
                graph,
                incumbent,
                constraints,
                costs,
                b,
                a,
                options,
                q,
                error,
            );
        },
        _ => {},
    }
}

} // verus!
