//! What every route of a trial keeps from one step of the negotiation to the next.

use std::sync::Arc;

use vstd::prelude::*;

use crate::device::{Device, UnifiedGraph};
use crate::model::{CellPinId, NetId, PipId, WireId};
use crate::net_growth::NetRouter;
use crate::net_routing::{arc_fits, arcs_fit, consistent, driver_wire, holds_arc, takes_hop};
use crate::occupancy::{indices, slot_pips, slot_wires};
use crate::placement::{lemma_wire_on_device, pin_wire, Placement};
use crate::route::{NetRoute, RouteArc};
use crate::routing_constraints::{words_of, RoutingConstraints};
use crate::routing_costs::RoutingCosts;
use crate::search::blocked_in;
use crate::validation::route_fits;
use crate::workspace::slot_fits;

verus! {

/// Immutable arcs of a net.
pub open spec fn locked_arcs(constraints: &RoutingConstraints, net: NetId) -> Seq<RouteArc> {
    if constraints.routes@.contains_key(net) {
        constraints.routes@[net].arcs@
    } else {
        Seq::empty()
    }
}

/// The PIP leads from one wire to the other and is not forbidden.
pub open spec fn unblocked_hop(
    device: &Device,
    constraints: &RoutingConstraints,
    from: WireId,
    pip: PipId,
    to: WireId,
) -> bool {
    device.leads(from, pip, to) && !constraints.blocked_pips@.contains(pip)
}

/// Every hop of the arcs is immutable or not forbidden.
pub open spec fn hops_allowed(
    device: &Device,
    constraints: &RoutingConstraints,
    locked: Seq<RouteArc>,
    arcs: Seq<RouteArc>,
) -> bool {
    forall|i: int, k: int|
        #![trigger arcs[i].pips@[k]]
        0 <= i < arcs.len() && 0 <= k < arcs[i].pips@.len() ==> takes_hop(
            locked,
            arcs[i].wires@[k],
            arcs[i].pips@[k],
            arcs[i].wires@[k + 1],
        ) || unblocked_hop(
            device,
            constraints,
            arcs[i].wires@[k],
            arcs[i].pips@[k],
            arcs[i].wires@[k + 1],
        )
}

/// Every arc of the first list is in the second.
pub open spec fn arcs_kept(kept: Seq<RouteArc>, arcs: Seq<RouteArc>) -> bool {
    forall|f: int| 0 <= f < kept.len() ==> holds_arc(arcs, #[trigger] kept[f])
}

/// Arcs without a sink come from the immutable part.
pub open spec fn topology_locked(locked: Seq<RouteArc>, arcs: Seq<RouteArc>) -> bool {
    forall|i: int|
        0 <= i < arcs.len() && (#[trigger] arcs[i]).sink is None ==> holds_arc(locked, arcs[i])
}

/// The route is one of its net: its arcs fit the placement, keep the immutable
/// part, and take nothing forbidden.
pub open spec fn keeps(
    graph: UnifiedGraph<'_>,
    placement: &Placement,
    constraints: &RoutingConstraints,
    net: NetId,
    route: NetRoute,
) -> bool {
    let locked = locked_arcs(constraints, net);
    &&& route.net == net
    &&& route.is_fresh()
    &&& driver_wire(graph, placement, net) is Some
    &&& arcs_fit(graph, placement, net, driver_wire(graph, placement, net)->0, route.arcs@)
    &&& arcs_kept(locked, route.arcs@)
    &&& topology_locked(locked, route.arcs@)
    &&& hops_allowed(graph.device, constraints, locked, route.arcs@)
    &&& consistent(locked) ==> consistent(route.arcs@)
}

/// The route keeps to its net and reaches every sink.
pub open spec fn serves_net(
    graph: UnifiedGraph<'_>,
    placement: &Placement,
    constraints: &RoutingConstraints,
    net: NetId,
    route: NetRoute,
) -> bool {
    &&& keeps(graph, placement, constraints, net, route)
    &&& forall|k: int|
        0 <= k < graph.design.nets@[net.0 as int].sinks@.len() ==> route.reaches(
            #[trigger] graph.design.nets@[net.0 as int].sinks@[k],
        )
}

/// The router prices or forbids nothing but by these constraints and costs.
pub open spec fn is_trial(
    router: NetRouter<'_>,
    graph: UnifiedGraph<'_>,
    placement: &Placement,
    constraints: &RoutingConstraints,
    costs: Option<&RoutingCosts>,
) -> bool {
    &&& router.graph == graph
    &&& router.placement == placement
    &&& router.blocked_pip_words@ == words_of(constraints.blocked_pip_words)
    &&& router.costs == costs
}

/// An arc of the same sink, wires, and PIPs fits as well.
pub proof fn lemma_same_arc_fits(
    graph: UnifiedGraph<'_>,
    placement: &Placement,
    net: NetId,
    driver: WireId,
    arc: RouteArc,
    other: RouteArc,
)
    requires
        arc_fits(graph, placement, net, driver, arc),
        other.same(&arc),
    ensures
        arc_fits(graph, placement, net, driver, other),
{
    assert forall|i: int| 0 <= i < other.pips@.len() implies graph.device.leads(
        other.wires@[i],
        #[trigger] other.pips@[i],
        other.wires@[i + 1],
    ) by {
        assert(graph.device.leads(arc.wires@[i], arc.pips@[i], arc.wires@[i + 1]));
    }
}

/// The resources of arcs that are kept are kept.
pub proof fn lemma_kept_resources(kept: &NetRoute, route: &NetRoute)
    requires
        kept.is_fresh(),
        route.is_fresh(),
        arcs_kept(kept.arcs@, route.arcs@),
    ensures
        forall|w: WireId| #[trigger] kept.has_wire(w) ==> route.has_wire(w),
        forall|p: PipId| #[trigger] kept.has_pip(p) ==> route.has_pip(p),
        indices(kept.wire_refs).subset_of(indices(route.wire_refs)),
        indices(kept.pip_refs).subset_of(indices(route.pip_refs)),
{
    kept.lemma_resources();
    route.lemma_resources();
    assert forall|w: WireId| #[trigger] kept.has_wire(w) implies route.has_wire(w) by {
        let f = choose|f: int|
            0 <= f < kept.arcs@.len() && (#[trigger] kept.arcs@[f]).wires@.contains(w);
        assert(holds_arc(route.arcs@, kept.arcs@[f]));
        let i = choose|i: int|
            0 <= i < route.arcs@.len() && (#[trigger] route.arcs@[i]).same(&kept.arcs@[f]);
        assert(route.arcs@[i].wires@.contains(w));
    }
    assert forall|p: PipId| #[trigger] kept.has_pip(p) implies route.has_pip(p) by {
        let f = choose|f: int|
            0 <= f < kept.arcs@.len() && (#[trigger] kept.arcs@[f]).pips@.contains(p);
        assert(holds_arc(route.arcs@, kept.arcs@[f]));
        let i = choose|i: int|
            0 <= i < route.arcs@.len() && (#[trigger] route.arcs@[i]).same(&kept.arcs@[f]);
        assert(route.arcs@[i].pips@.contains(p));
    }
    assert forall|r: int| #[trigger] indices(kept.wire_refs).contains(r) implies indices(
        route.wire_refs,
    ).contains(r) by {
        let w = choose|w: WireId| #[trigger]
            kept.wire_refs@.contains_key(w) && crate::ordered::OrderedKey::rank(w) == r;
        assert(kept.has_wire(w));
        assert(route.wire_refs@.contains_key(w));
    }
    assert forall|r: int| #[trigger] indices(kept.pip_refs).contains(r) implies indices(
        route.pip_refs,
    ).contains(r) by {
        let p = choose|p: PipId| #[trigger]
            kept.pip_refs@.contains_key(p) && crate::ordered::OrderedKey::rank(p) == r;
        assert(kept.has_pip(p));
        assert(route.pip_refs@.contains_key(p));
    }
}

/// A path of the device runs over wires and PIPs of the device.
pub proof fn lemma_path_in_range(device: &Device, driver: WireId, arc: RouteArc)
    requires
        device.wf(),
        driver.0 < device.wires@.len(),
        arc.is_path(device, driver),
    ensures
        forall|i: int|
            0 <= i < arc.wires@.len() ==> (#[trigger] arc.wires@[i]).0 < device.wires@.len(),
        forall|i: int| 0 <= i < arc.pips@.len() ==> (#[trigger] arc.pips@[i]).0 < device.pips@.len(),
{
    assert forall|i: int| 0 <= i < arc.wires@.len() implies (#[trigger] arc.wires@[i]).0
        < device.wires@.len() by {
        if i > 0 {
            assert(device.leads(arc.wires@[i - 1], arc.pips@[i - 1], arc.wires@[i - 1 + 1]));
            device.lemma_listed(arc.wires@[i - 1], arc.pips@[i - 1], arc.wires@[i]);
        }
    }
    assert forall|i: int| 0 <= i < arc.pips@.len() implies (#[trigger] arc.pips@[i]).0
        < device.pips@.len() by {
        assert(device.leads(arc.wires@[i], arc.pips@[i], arc.wires@[i + 1]));
    }
}

/// The wire of a placed pin is on the device.
pub proof fn lemma_pin_wire_range(graph: UnifiedGraph<'_>, placement: &Placement, pin: CellPinId)
    requires
        graph.wf(),
        placement.fits(graph.device),
    ensures
        pin_wire(graph, placement, pin) matches Some(wire) ==> wire.0 < graph.device.wires@.len(),
{
    if pin.0 < graph.design.pins@.len() {
        let cell = graph.design.pins@[pin.0 as int].cell;
        if let Some(bel) = placement.bel_of(cell) {
            lemma_wire_on_device(graph, placement, pin, bel);
        }
    }
}

/// Arcs that fit make a slot that fits the device.
pub proof fn lemma_arcs_slot_fits(
    graph: UnifiedGraph<'_>,
    placement: &Placement,
    net: NetId,
    route: Arc<NetRoute>,
)
    requires
        graph.wf(),
        placement.fits(graph.device),
        net.0 < graph.design.nets@.len(),
        route.is_fresh(),
        driver_wire(graph, placement, net) is Some,
        arcs_fit(graph, placement, net, driver_wire(graph, placement, net)->0, route.arcs@),
    ensures
        slot_fits(
            Some(route),
            graph.device.wires@.len() as int,
            graph.device.pips@.len() as int,
        ),
{
    let device = graph.device;
    let driver = driver_wire(graph, placement, net)->0;
    lemma_pin_wire_range(graph, placement, graph.design.nets@[net.0 as int].driver);
    route.lemma_resources();
    assert forall|r: int| #[trigger] slot_wires(Some(route)).contains(r) implies 0 <= r
        < device.wires@.len() by {
        let w = choose|w: WireId| #[trigger]
            route.wire_refs@.contains_key(w) && crate::ordered::OrderedKey::rank(w) == r;
        assert(route.has_wire(w));
        let i = choose|i: int|
            0 <= i < route.arcs@.len() && (#[trigger] route.arcs@[i]).wires@.contains(w);
        assert(arc_fits(graph, placement, net, driver, route.arcs@[i]));
        lemma_path_in_range(device, driver, route.arcs@[i]);
        let k = route.arcs@[i].wires@.index_of(w);
        assert(route.arcs@[i].wires@[k] == w);
    }
    assert forall|r: int| #[trigger] slot_pips(Some(route)).contains(r) implies 0 <= r
        < device.pips@.len() by {
        let p = choose|p: PipId| #[trigger]
            route.pip_refs@.contains_key(p) && crate::ordered::OrderedKey::rank(p) == r;
        assert(route.has_pip(p));
        let i = choose|i: int|
            0 <= i < route.arcs@.len() && (#[trigger] route.arcs@[i]).pips@.contains(p);
        assert(arc_fits(graph, placement, net, driver, route.arcs@[i]));
        lemma_path_in_range(device, driver, route.arcs@[i]);
        let k = route.arcs@[i].pips@.index_of(p);
        assert(route.arcs@[i].pips@[k] == p);
    }
}

/// An immutable route that fits keeps to its net.
pub proof fn lemma_constraint_keeps(
    graph: UnifiedGraph<'_>,
    placement: &Placement,
    constraints: &RoutingConstraints,
    net: NetId,
)
    requires
        constraints.routes@.contains_key(net),
        route_fits(graph, placement, constraints, net, *constraints.routes@[net]),
    ensures
        keeps(graph, placement, constraints, net, *constraints.routes@[net]),
{
    let route = constraints.routes@[net];
    let locked = locked_arcs(constraints, net);
    assert(locked == route.arcs@);
    assert forall|f: int| 0 <= f < locked.len() implies holds_arc(
        route.arcs@,
        #[trigger] locked[f],
    ) by {
        assert(route.arcs@[f].same(&locked[f]));
    }
    assert forall|i: int, k: int|
        #![trigger route.arcs@[i].pips@[k]]
        0 <= i < route.arcs@.len() && 0 <= k < route.arcs@[i].pips@.len() implies takes_hop(
        locked,
        route.arcs@[i].wires@[k],
        route.arcs@[i].pips@[k],
        route.arcs@[i].wires@[k + 1],
    ) || unblocked_hop(
        graph.device,
        constraints,
        route.arcs@[i].wires@[k],
        route.arcs@[i].pips@[k],
        route.arcs@[i].wires@[k + 1],
    ) by {
        assert(locked[i].pips@[k] == route.arcs@[i].pips@[k]);
    }
}

/// Grown from a kept part, a route that serves its net keeps to it.
pub proof fn lemma_grown_keeps(
    router: NetRouter<'_>,
    graph: UnifiedGraph<'_>,
    placement: &Placement,
    constraints: &RoutingConstraints,
    costs: Option<&RoutingCosts>,
    net: NetId,
    fixed: Option<&NetRoute>,
    route: NetRoute,
)
    requires
        constraints.wf(),
        is_trial(router, graph, placement, constraints, costs),
        net.0 < graph.design.nets@.len(),
        router.serves(net, NetRouter::fixed_arcs(fixed), route),
        match fixed {
            Some(kept) => keeps(graph, placement, constraints, net, *kept),
            None => !constraints.routes@.contains_key(net),
        },
    ensures
        serves_net(graph, placement, constraints, net, route),
{
    let locked = locked_arcs(constraints, net);
    let arcs = NetRouter::fixed_arcs(fixed);
    assert forall|f: int| 0 <= f < locked.len() implies holds_arc(
        route.arcs@,
        #[trigger] locked[f],
    ) by {
        assert(holds_arc(arcs, locked[f]));
        let k = choose|k: int| 0 <= k < arcs.len() && (#[trigger] arcs[k]).same(&locked[f]);
        assert(holds_arc(route.arcs@, arcs[k]));
        let i = choose|i: int|
            0 <= i < route.arcs@.len() && (#[trigger] route.arcs@[i]).same(&arcs[k]);
        assert(route.arcs@[i].same(&locked[f]));
    }
    assert forall|i: int|
        0 <= i < route.arcs@.len() && (#[trigger] route.arcs@[i]).sink is None implies holds_arc(
        locked,
        route.arcs@[i],
    ) by {
        assert(holds_arc(arcs, route.arcs@[i]));
        let k = choose|k: int| 0 <= k < arcs.len() && (#[trigger] arcs[k]).same(&route.arcs@[i]);
        assert(arcs[k].sink is None);
        assert(holds_arc(locked, arcs[k]));
        let f = choose|f: int| 0 <= f < locked.len() && (#[trigger] locked[f]).same(&arcs[k]);
        assert(locked[f].same(&route.arcs@[i]));
    }
    assert forall|i: int, k: int|
        #![trigger route.arcs@[i].pips@[k]]
        0 <= i < route.arcs@.len() && 0 <= k < route.arcs@[i].pips@.len() implies takes_hop(
        locked,
        route.arcs@[i].wires@[k],
        route.arcs@[i].pips@[k],
        route.arcs@[i].wires@[k + 1],
    ) || unblocked_hop(
        graph.device,
        constraints,
        route.arcs@[i].wires@[k],
        route.arcs@[i].pips@[k],
        route.arcs@[i].wires@[k + 1],
    ) by {
        let from = route.arcs@[i].wires@[k];
        let pip = route.arcs@[i].pips@[k];
        let to = route.arcs@[i].wires@[k + 1];
        assert(router.hop_granted(arcs, from, pip, to));
        if takes_hop(arcs, from, pip, to) {
            let (a, j) = choose|a: int, j: int|
                #![trigger arcs[a].pips@[j]]
                0 <= a < arcs.len() && 0 <= j < arcs[a].pips@.len() && arcs[a].pips@[j] == pip
                    && arcs[a].wires@[j] == from && arcs[a].wires@[j + 1] == to;
            assert(arcs[a].pips@[j] == pip);
        } else {
            assert(!blocked_in(words_of(constraints.blocked_pip_words), pip));
        }
    }
}

} // verus!
