//! Branches of a routed net that lead to chosen sinks.

use vstd::prelude::*;
use vstd::string::*;

use crate::device::{Device, UnifiedGraph};
use crate::error::PnrError;
use crate::model::{CellPinId, Design, PipId, WireId};
use crate::net_routing::{consistent, distinct_sinks, driver_wire, holds_arc, hops_agree};
use crate::ordered::{
    lemma_counted_twice, lemma_counterpart, lemma_twice_counted, OrderedMap, OrderedSet,
};
use crate::placement::{bound_wire, pin_wire, PinWireCache, Placement};
use crate::route::{NetRoute, RouteArc};
use crate::route_shape::{consistent_route_is_tree, is_tree, start_at};
use crate::routing_constraints::RoutingConstraints;
use crate::text::{decimal_text, numbered};
use crate::tree::ParentHop;
use crate::validation::{check_arc_path, has_sink};

verus! {

/// The first arc to the sink ends on the wire.
pub open spec fn ends_at(route: NetRoute, sink: CellPinId, wire: WireId) -> bool {
    exists|i: int|
        {
            &&& 0 <= i < route.arcs@.len()
            &&& (#[trigger] route.arcs@[i]).sink == Some(sink)
            &&& forall|j: int| 0 <= j < i ==> (#[trigger] route.arcs@[j]).sink != Some(sink)
            &&& route.arcs@[i].wires@.len() > 0
            &&& route.arcs@[i].wires@.last() == wire
        }
}

/// The arc is shared topology or leads to one of the sinks.
pub open spec fn leads_to(arc: RouteArc, sinks: Set<CellPinId>) -> bool {
    arc.sink matches Some(sink) ==> sinks.contains(sink)
}

/// Whether the first arc to the sink ends on the wire.
fn arc_ends_at(route: &NetRoute, sink: CellPinId, wire: WireId) -> (result: bool)
    ensures
        result == ends_at(*route, sink, wire),
{
    match route.arc(sink) {
        None => {
            proof {
                if ends_at(*route, sink, wire) {
                    let i = choose|i: int|
                        0 <= i < route.arcs@.len() && (#[trigger] route.arcs@[i]).sink == Some(
                            sink,
                        );
                    assert(route.reaches(sink));
                }
            }
            false
        },
        Some(arc) => {
            let count: usize = arc.wires.len();
            let ends = count > 0 && arc.wires[count - 1].0 == wire.0;
            proof {
                let k = choose|i: int|
                    0 <= i < route.arcs@.len() && #[trigger] route.arcs@[i] == *arc && arc.sink
                        == Some(sink) && forall|j: int|
                        0 <= j < i ==> (#[trigger] route.arcs@[j]).sink != Some(sink);
                assert(route.arcs@[k].sink == Some(sink));
                if ends_at(*route, sink, wire) {
                    let i = choose|i: int|
                        {
                            &&& 0 <= i < route.arcs@.len()
                            &&& (#[trigger] route.arcs@[i]).sink == Some(sink)
                            &&& forall|j: int|
                                0 <= j < i ==> (#[trigger] route.arcs@[j]).sink != Some(sink)
                            &&& route.arcs@[i].wires@.len() > 0
                            &&& route.arcs@[i].wires@.last() == wire
                        };
                    assert(i == k);
                }
                if ends {
                    assert(arc.wires@.last() == wire);
                }
            }
            ends
        },
    }
}

/// The copies stand for the chosen arcs, each at the position that it was taken from.
spec fn copies(
    arcs: Seq<RouteArc>,
    sinks: Set<CellPinId>,
    count: int,
    from: Seq<int>,
    built: Seq<RouteArc>,
) -> bool {
    &&& from.len() == built.len()
    &&& forall|i: int|
        0 <= i < built.len() ==> {
            &&& 0 <= #[trigger] from[i] < count
            &&& built[i].same(&arcs[from[i]])
            &&& leads_to(arcs[from[i]], sinks)
        }
    &&& forall|i: int, j: int| 0 <= i < j < from.len() ==> #[trigger] from[i] < #[trigger] from[j]
    &&& forall|k: int|
        0 <= k < count && leads_to(#[trigger] arcs[k], sinks) ==> from.contains(k)
}

/// Copies the arcs that are shared topology or lead to one of the sinks.
pub(crate) fn retained_route(route: &NetRoute, sinks: &OrderedSet<CellPinId>) -> (result: NetRoute)
    requires
        sinks.wf(),
    ensures
        retains(*route, sinks@, result),
{
    let ghost all = route.arcs@;
    let ghost mut from: Seq<int> = Seq::empty();
    let mut built: Vec<RouteArc> = Vec::new();
    let mut index: usize = 0;
    while index < route.arcs.len()
        invariant
            index <= route.arcs@.len(),
            all == route.arcs@,
            sinks.wf(),
            copies(all, sinks@, index as int, from, built@),
        decreases route.arcs@.len() - index,
    {
        let arc = &route.arcs[index];
        let stays = match arc.sink {
            None => true,
            Some(sink) => sinks.contains(sink),
        };
        let ghost earlier = from;
        let ghost shorter = built@;
        if stays {
            built.push(arc.copied());
            proof {
                from = from.push(index as int);
                assert(from[earlier.len() as int] == index);
            }
        }
        proof {
            assert forall|i: int| 0 <= i < built@.len() implies {
                &&& 0 <= #[trigger] from[i] < index + 1
                &&& built@[i].same(&all[from[i]])
                &&& leads_to(all[from[i]], sinks@)
            } by {
                if i < earlier.len() {
                    assert(0 <= earlier[i] < index);
                    assert(shorter[i] == built@[i]);
                }
            }
            assert forall|i: int, j: int| 0 <= i < j < from.len() implies #[trigger] from[i]
                < #[trigger] from[j] by {
                if j < earlier.len() {
                    assert(earlier[i] < earlier[j]);
                } else {
                    assert(0 <= earlier[i] < index);
                }
            }
            assert forall|k: int| 0 <= k < index + 1 && leads_to(#[trigger] all[k], sinks@) implies from.contains(
                k,
            ) by {
                if k < index {
                    assert(earlier.contains(k));
                    let i = earlier.index_of(k);
                    assert(from[i] == k);
                } else {
                    assert(from[earlier.len() as int] == k);
                }
            }
        }
        index = index + 1;
    }
    let ghost copied = built@;
    let kept = NetRoute::new(route.net, built);
    proof {
        lemma_retains(*route, sinks@, from, copied, kept);
    }
    kept
}

/// The retained route: the chosen arcs of the given one, in canonical order.
pub open spec fn retains(route: NetRoute, sinks: Set<CellPinId>, kept: NetRoute) -> bool {
    &&& kept.net == route.net
    &&& kept.is_fresh()
    &&& forall|i: int|
        0 <= i < route.arcs@.len() && leads_to(#[trigger] route.arcs@[i], sinks) ==> holds_arc(
            kept.arcs@,
            route.arcs@[i],
        )
    &&& forall|i: int|
        0 <= i < kept.arcs@.len() ==> leads_to(#[trigger] kept.arcs@[i], sinks) && holds_arc(
            route.arcs@,
            kept.arcs@[i],
        )
    &&& distinct_sinks(route.arcs@) ==> distinct_sinks(kept.arcs@)
    &&& consistent(route.arcs@) ==> consistent(kept.arcs@)
}

/// Every chosen sink is one of the net, and the route ends on its wire.
pub open spec fn sinks_retained(
    graph: UnifiedGraph<'_>,
    placement: &Placement,
    route: NetRoute,
    sinks: Set<CellPinId>,
) -> bool {
    &&& route.net.0 < graph.design.nets@.len()
    &&& forall|s: CellPinId| #[trigger]
        sinks.contains(s) ==> {
            &&& graph.design.nets@[route.net.0 as int].sinks@.contains(s)
            &&& pin_wire(graph, placement, s) matches Some(wire) && ends_at(route, s, wire)
        }
}

/// The route is a tree of paths from the placed driver's wire.
pub open spec fn is_rooted(
    graph: UnifiedGraph<'_>,
    placement: &Placement,
    route: NetRoute,
) -> bool {
    &&& driver_wire(graph, placement, route.net) matches Some(driver) && start_at(
        graph.device,
        driver,
        route.arcs@,
    )
    &&& consistent(route.arcs@)
}

/// The wire of the hop is entered by it.
spec fn records_hop(
    arcs: Seq<RouteArc>,
    a: int,
    i: int,
    entered: Map<WireId, ParentHop>,
) -> bool {
    &&& entered.contains_key(arcs[a].wires@[i + 1])
    &&& entered[arcs[a].wires@[i + 1]] == (ParentHop {
        wire: arcs[a].wires@[i],
        pip: arcs[a].pips@[i],
    })
}

/// Some arc has the hop into the wire.
spec fn has_hop(arcs: Seq<RouteArc>, w: WireId, hop: ParentHop) -> bool {
    exists|a: int, i: int| #[trigger] is_hop(arcs, a, i, w, hop)
}

/// The arc has the hop into the wire.
spec fn is_hop(arcs: Seq<RouteArc>, a: int, i: int, w: WireId, hop: ParentHop) -> bool {
    &&& 0 <= a < arcs.len()
    &&& 0 <= i < arcs[a].pips@.len()
    &&& arcs[a].wires@[i + 1] == w
    &&& hop == (ParentHop { wire: arcs[a].wires@[i], pip: arcs[a].pips@[i] })
}

/// The hops of the first arcs, collected by the entered wire.
spec fn records_hops(
    arcs: Seq<RouteArc>,
    count: int,
    steps: int,
    entered: Map<WireId, ParentHop>,
) -> bool {
    &&& forall|a: int, i: int|
        0 <= a < arcs.len() && 0 <= i < arcs[a].pips@.len() && (a < count || (a == count && i
            < steps)) ==> #[trigger] records_hop(arcs, a, i, entered)
    &&& forall|w: WireId| #[trigger] entered.contains_key(w) ==> has_hop(arcs, w, entered[w])
}

/// Whether no wire is entered by two hops.
fn arcs_agree(arcs: &Vec<RouteArc>) -> (result: bool)
    requires
        forall|i: int|
            0 <= i < arcs@.len() ==> (#[trigger] arcs@[i]).wires@.len() == arcs@[i].pips@.len() + 1,
    ensures
        result == consistent(arcs@),
{
    let mut entered: OrderedMap<WireId, ParentHop> = OrderedMap::new();
    let mut count: usize = 0;
    while count < arcs.len()
        invariant
            count <= arcs@.len(),
            entered.wf(),
            forall|i: int|
                0 <= i < arcs@.len() ==> (#[trigger] arcs@[i]).wires@.len()
                    == arcs@[i].pips@.len() + 1,
            records_hops(arcs@, count as int, 0, entered@),
        decreases arcs@.len() - count,
    {
        let arc = &arcs[count];
        assert(arcs@[count as int].wires@.len() == arcs@[count as int].pips@.len() + 1);
        let mut step: usize = 0;
        while step < arc.pips.len()
            invariant
                count < arcs@.len(),
                *arc == arcs@[count as int],
                step <= arc.pips@.len(),
                arc.wires@.len() == arc.pips@.len() + 1,
                entered.wf(),
                records_hops(arcs@, count as int, step as int, entered@),
            decreases arc.pips@.len() - step,
        {
            let to = arc.wires[step + 1];
            let hop = ParentHop { wire: arc.wires[step], pip: arc.pips[step] };
            let ghost before = entered@;
            assert(arcs@[count as int].pips@[step as int] == hop.pip);
            match entered.get(to) {
                Some(known) => {
                    if known.wire != hop.wire || known.pip != hop.pip {
                        proof {
                            assert(has_hop(arcs@, to, entered@[to]));
                            let (a, i) = choose|a: int, i: int| #[trigger]
                                is_hop(arcs@, a, i, to, entered@[to]);
                            assert(!hops_agree(arcs@, a, i, count as int, step as int));
                        }
                        return false;
                    }
                },
                None => {
                    entered.insert(to, hop);
                },
            }
            proof {
                assert(entered@.contains_key(to) && entered@[to] == hop);
                assert forall|a: int, i: int|
                    0 <= a < arcs@.len() && 0 <= i < arcs@[a].pips@.len() && (a < count || (a
                        == count && i < step + 1)) implies #[trigger] records_hop(
                    arcs@,
                    a,
                    i,
                    entered@,
                ) by {
                    if a < count || i < step {
                        assert(records_hop(arcs@, a, i, before));
                    }
                }
                assert forall|w: WireId| #[trigger] entered@.contains_key(w) implies has_hop(
                    arcs@,
                    w,
                    entered@[w],
                ) by {
                    if before.contains_key(w) {
                        assert(has_hop(arcs@, w, before[w]));
                    } else {
                        assert(is_hop(arcs@, count as int, step as int, w, hop));
                    }
                }
            }
            step = step + 1;
        }
        assert forall|a: int, i: int|
            0 <= a < arcs@.len() && 0 <= i < arcs@[a].pips@.len() && a < count
                + 1 implies #[trigger] records_hop(arcs@, a, i, entered@) by {}
        count = count + 1;
    }
    proof {
        assert forall|a: int, i: int, b: int, j: int| #[trigger] hops_agree(arcs@, a, i, b, j) by {
            if 0 <= a < arcs@.len() && 0 <= b < arcs@.len() && 0 <= i < arcs@[a].pips@.len() && 0
                <= j < arcs@[b].pips@.len() {
                assert(records_hop(arcs@, a, i, entered@));
                assert(records_hop(arcs@, b, j, entered@));
            }
        }
    }
    true
}

/// Checks that the route is a tree of paths from the placed driver's wire.
fn check_rooted(graph: &UnifiedGraph<'_>, placement: &Placement, route: &NetRoute) -> (result: Result<
    (),
    PnrError,
>)
    requires
        graph.wf(),
        placement.fits(graph.device),
        route.net.0 < graph.design.nets@.len(),
    ensures
        match result {
            Ok(()) => is_rooted(*graph, placement, *route),
            Err(error) => !is_rooted(*graph, placement, *route) && root_defect(
                *graph,
                placement,
                *route,
                error,
            ),
        },
{
    let pin = graph.design().nets[route.net.0].driver;
    let cell = graph.design().pins[pin.0].cell;
    let bel = match placement.bel(cell) {
        None => {
            return Err(PnrError::MissingPlacement { cell });
        },
        Some(bel) => bel,
    };
    let driver = match bound_wire(graph, placement, pin, bel) {
        Err(error) => {
            return Err(error);
        },
        Ok(wire) => wire,
    };
    assert(driver_wire(*graph, placement, route.net) == Some(driver));
    let free = RoutingConstraints::new();
    let mut index: usize = 0;
    while index < route.arcs.len()
        invariant
            index <= route.arcs@.len(),
            free.wf(),
            free.blocked_pips@ == Set::<PipId>::empty(),
            driver_wire(*graph, placement, route.net) == Some(driver),
            forall|i: int|
                0 <= i < index ==> (#[trigger] route.arcs@[i]).is_path(graph.device, driver),
        decreases route.arcs@.len() - index,
    {
        match check_arc_path(graph.device(), &free, route.net, driver, &route.arcs[index]) {
            Err(error) => {
                assert(!route.arcs@[index as int].is_path(graph.device, driver));
                return Err(error);
            },
            Ok(()) => {},
        }
        index = index + 1;
    }
    if !arcs_agree(&route.arcs) {
        return Err(
            PnrError::InvalidRoutingConstraint {
                net: route.net,
                reason: String::from_str("route is not a tree"),
            },
        );
    }
    Ok(())
}

/// Why the route is no tree from its driver.
pub open spec fn root_defect(
    graph: UnifiedGraph<'_>,
    placement: &Placement,
    route: NetRoute,
    error: PnrError,
) -> bool {
    let pin = graph.design.nets@[route.net.0 as int].driver;
    let cell = graph.design.pins@[pin.0 as int].cell;
    match error {
        PnrError::MissingPlacement { cell: missing } => missing == cell && placement.bel_of(
            cell,
        ) is None,
        PnrError::Model(_) => placement.bel_of(cell) is Some && driver_wire(
            graph,
            placement,
            route.net,
        ) is None,
        PnrError::InvalidRoutingConstraint { net, .. } => {
            &&& net == route.net
            &&& driver_wire(graph, placement, route.net) is Some
        },
        _ => false,
    }
}

/// Why the branches could not be retained.
pub open spec fn retain_defect(
    graph: UnifiedGraph<'_>,
    placement: &Placement,
    route: NetRoute,
    sinks: Set<CellPinId>,
    error: PnrError,
) -> bool {
    match error {
        PnrError::InvalidRoutingConstraint { net, reason } => {
            &&& net == route.net
            &&& if route.net.0 >= graph.design.nets@.len() {
                reason@ == "net ID is outside the design"@
            } else if exists|s: CellPinId| #[trigger]
                sinks.contains(s) && !graph.design.nets@[route.net.0 as int].sinks@.contains(s) {
                exists|s: CellPinId| #[trigger]
                    sinks.contains(s) && !graph.design.nets@[route.net.0 as int].sinks@.contains(s)
                        && reason@ == "pin "@ + decimal_text(s.0 as nat)
                        + " is not a sink of the routed net"@
            } else {
                exists|s: CellPinId| #[trigger]
                    sinks.contains(s) && if route.reaches(s) {
                        &&& pin_wire(graph, placement, s) matches Some(wire) && !ends_at(
                            route,
                            s,
                            wire,
                        )
                        &&& reason@ == "route arc for sink pin "@ + decimal_text(s.0 as nat)
                            + " ends on another wire"@
                    } else {
                        reason@ == "route does not reach retained sink pin "@ + decimal_text(
                            s.0 as nat,
                        ) + ""@
                    }
            }
        },
        PnrError::MissingPlacement { cell } => placement.bel_of(cell) is None && exists|
            s: CellPinId,
        | #[trigger]
            sinks.contains(s) && s.0 < graph.design.pins@.len()
                && graph.design.pins@[s.0 as int].cell == cell,
        PnrError::Model(_) => exists|s: CellPinId| #[trigger]
            sinks.contains(s) && pin_wire(graph, placement, s) is None,
        _ => false,
    }
}

/// First chosen pin that is no sink of the net.
fn find_foreign(list: &Vec<CellPinId>, sinks: &OrderedSet<CellPinId>) -> (result: Option<CellPinId>)
    requires
        sinks.wf(),
    ensures
        match result {
            Some(sink) => sinks@.contains(sink) && !list@.contains(sink),
            None => forall|s: CellPinId| #[trigger] sinks@.contains(s) ==> list@.contains(s),
        },
{
    let mut index: usize = 0;
    while index < sinks.len()
        invariant
            index <= sinks.ordered().len(),
            sinks.wf(),
            forall|i: int| 0 <= i < index ==> list@.contains(#[trigger] sinks.ordered()[i]),
        decreases sinks.ordered().len() - index,
    {
        let sink = sinks.at(index);
        if !has_sink(list, sink) {
            return Some(sink);
        }
        index = index + 1;
    }
    proof {
        assert forall|s: CellPinId| #[trigger] sinks@.contains(s) implies list@.contains(s) by {
            sinks.membership(s);
            let i = sinks.ordered().index_of(s);
            assert(sinks.ordered()[i] == s);
        }
    }
    None
}

/// Retains only the branches needed to reach `sinks` from a routed net's
/// driver. The returned partial tree can be supplied as a routing constraint;
/// the router will preserve its shared trunk and grow the missing sink arcs.
///
/// # Errors
///
/// Returns an invalid-routing-constraint or placement error when the supplied
/// route is not a driver-rooted tree for the current placement.
pub fn retain_route_for_sinks(
    design: &Design,
    device: &Device,
    placement: &Placement,
    route: &NetRoute,
    sinks: &OrderedSet<CellPinId>,
) -> (result: Result<Option<NetRoute>, PnrError>)
    requires
        UnifiedGraph::of(design, device).wf(),
        placement.fits(device),
        sinks.wf(),
    ensures
        match result {
            Ok(None) => sinks@ == Set::<CellPinId>::empty(),
            Ok(Some(kept)) => {
                &&& sinks@ != Set::<CellPinId>::empty()
                &&& sinks_retained(UnifiedGraph::of(design, device), placement, *route, sinks@)
                &&& is_rooted(UnifiedGraph::of(design, device), placement, *route)
                &&& route.is_fresh() ==> is_tree(*route)
                &&& retains(*route, sinks@, kept)
            },
            Err(error) => {
                &&& sinks@ != Set::<CellPinId>::empty()
                &&& if sinks_retained(
                    UnifiedGraph::of(design, device),
                    placement,
                    *route,
                    sinks@,
                ) {
                    !is_rooted(UnifiedGraph::of(design, device), placement, *route) && root_defect(
                        UnifiedGraph::of(design, device),
                        placement,
                        *route,
                        error,
                    )
                } else {
                    retain_defect(
                        UnifiedGraph::of(design, device),
                        placement,
                        *route,
                        sinks@,
                        error,
                    )
                }
            },
        },
{
    if sinks.is_empty() {
        return Ok(None);
    }
    proof {
        if sinks@ == Set::<CellPinId>::empty() {
            sinks.membership(sinks.ordered()[0]);
        }
    }
    let graph = UnifiedGraph::new(design, device);
    if route.net.0 >= design.nets.len() {
        return Err(
            PnrError::InvalidRoutingConstraint {
                net: route.net,
                reason: String::from_str("net ID is outside the design"),
            },
        );
    }
    let net = &design.nets[route.net.0];
    if let Some(sink) = find_foreign(&net.sinks, sinks) {
        return Err(
            PnrError::InvalidRoutingConstraint {
                net: route.net,
                reason: numbered("pin ", sink.0, " is not a sink of the routed net"),
            },
        );
    }
    let mut index: usize = 0;
    while index < sinks.len()
        invariant
            index <= sinks.ordered().len(),
            sinks.wf(),
            sinks@ != Set::<CellPinId>::empty(),
            graph == UnifiedGraph::of(design, device),
            graph.wf(),
            placement.fits(device),
            route.net.0 < design.nets@.len(),
            forall|s: CellPinId| #[trigger]
                sinks@.contains(s) ==> design.nets@[route.net.0 as int].sinks@.contains(s),
            forall|i: int|
                0 <= i < index ==> {
                    &&& pin_wire(graph, placement, #[trigger] sinks.ordered()[i]) is Some
                    &&& ends_at(
                        *route,
                        sinks.ordered()[i],
                        pin_wire(graph, placement, sinks.ordered()[i])->0,
                    )
                },
        decreases sinks.ordered().len() - index,
    {
        let sink = sinks.at(index);
        assert(sinks@.contains(sink));
        proof {
            let k = design.nets@[route.net.0 as int].sinks@.index_of(sink);
            assert(design.nets@[route.net.0 as int].sinks@[k] == sink);
        }
        let sink_cell = design.pins[sink.0].cell;
        let sink_bel = match placement.bel(sink_cell) {
            None => {
                return Err(PnrError::MissingPlacement { cell: sink_cell });
            },
            Some(bel) => bel,
        };
        let sink_wire = match bound_wire(&graph, placement, sink, sink_bel) {
            Err(error) => {
                return Err(error);
            },
            Ok(wire) => wire,
        };
        assert(pin_wire(graph, placement, sink) == Some(sink_wire));
        if route.arc(sink).is_none() {
            proof {
                reveal_strlit("");
                if ends_at(*route, sink, sink_wire) {
                    let i = choose|i: int|
                        0 <= i < route.arcs@.len() && (#[trigger] route.arcs@[i]).sink == Some(
                            sink,
                        );
                    assert(route.reaches(sink));
                }
            }
            return Err(
                PnrError::InvalidRoutingConstraint {
                    net: route.net,
                    reason: numbered("route does not reach retained sink pin ", sink.0, ""),
                },
            );
        }
        if !arc_ends_at(route, sink, sink_wire) {
            return Err(
                PnrError::InvalidRoutingConstraint {
                    net: route.net,
                    reason: numbered("route arc for sink pin ", sink.0, " ends on another wire"),
                },
            );
        }
        index = index + 1;
    }
    proof {
        assert forall|s: CellPinId| #[trigger] sinks@.contains(s) implies {
            &&& design.nets@[route.net.0 as int].sinks@.contains(s)
            &&& pin_wire(graph, placement, s) matches Some(wire) && ends_at(*route, s, wire)
        } by {
            sinks.membership(s);
            let i = sinks.ordered().index_of(s);
            assert(sinks.ordered()[i] == s);
        }
        assert(sinks_retained(graph, placement, *route, sinks@));
    }
    match check_rooted(&graph, placement, route) {
        Err(error) => {
            return Err(error);
        },
        Ok(()) => {},
    }
    proof {
        let first = sinks.ordered()[0];
        assert(sinks.ordered().contains(first));
        sinks.membership(first);
        let driver = driver_wire(graph, placement, route.net)->0;
        assert(ends_at(*route, first, pin_wire(graph, placement, first)->0));
        if route.is_fresh() {
            consistent_route_is_tree(device, driver, *route);
        }
    }
    Ok(Some(retained_route(route, sinks)))
}

/// Copies of the chosen arcs form the retained route.
proof fn lemma_retains(
    route: NetRoute,
    sinks: Set<CellPinId>,
    from: Seq<int>,
    built: Seq<RouteArc>,
    kept: NetRoute,
)
    requires
        kept.net == route.net,
        kept.is_fresh(),
        kept.arcs@.to_multiset() == built.to_multiset(),
        copies(route.arcs@, sinks, route.arcs@.len() as int, from, built),
    ensures
        retains(route, sinks, kept),
{
    let all = route.arcs@;
    let arcs = kept.arcs@;
    assert forall|i: int| 0 <= i < all.len() && leads_to(#[trigger] all[i], sinks) implies holds_arc(
        arcs,
        all[i],
    ) by {
        assert(from.contains(i));
        let k = from.index_of(i);
        assert(from[k] == i);
        let j = lemma_counterpart(built, arcs, k);
        assert(arcs[j].same(&all[i]));
    }
    assert forall|i: int| 0 <= i < arcs.len() implies leads_to(#[trigger] arcs[i], sinks)
        && holds_arc(all, arcs[i]) by {
        let k = lemma_counterpart(arcs, built, i);
        assert(0 <= from[k] < all.len());
        assert(all[from[k]].same(&arcs[i]));
    }
    if distinct_sinks(all) {
        assert forall|a: int, b: int|
            0 <= a < b < arcs.len() && (#[trigger] arcs[a]).sink is Some implies arcs[a].sink != (
        #[trigger] arcs[b]).sink by {
            if arcs[a].sink == arcs[b].sink {
                let x = lemma_counterpart(arcs, built, a);
                let y = lemma_counterpart(arcs, built, b);
                assert(0 <= from[x] < all.len());
                assert(0 <= from[y] < all.len());
                if x == y {
                    lemma_twice_counted(arcs, a, b);
                    let (i, j) = lemma_counted_twice(built, built[x]);
                    assert(from[i] < from[j]);
                    assert(all[from[i]].sink != all[from[j]].sink);
                } else if x < y {
                    assert(from[x] < from[y]);
                    assert(all[from[x]].sink != all[from[y]].sink);
                } else {
                    assert(from[y] < from[x]);
                    assert(all[from[y]].sink != all[from[x]].sink);
                }
            }
        }
    }
    if consistent(all) {
        assert forall|a: int, i: int, b: int, j: int| #[trigger] hops_agree(arcs, a, i, b, j) by {
            if 0 <= a < arcs.len() && 0 <= b < arcs.len() {
                let x = lemma_counterpart(arcs, built, a);
                let y = lemma_counterpart(arcs, built, b);
                assert(0 <= from[x] < all.len());
                assert(0 <= from[y] < all.len());
                assert(built[x].same(&all[from[x]]));
                assert(built[y].same(&all[from[y]]));
                assert(hops_agree(all, from[x], i, from[y], j));
            }
        }
    }
}

/// Whether the route ends on the wire of every sink of its net.
pub fn route_reaches_all_sinks(
    graph: &UnifiedGraph<'_>,
    placement: &Placement,
    pin_wires: &PinWireCache,
    route: &NetRoute,
) -> (result: Result<bool, PnrError>)
    requires
        graph.wf(),
        placement.fits(graph.device),
        pin_wires.holds(*graph, placement),
        route.net.0 < graph.design.nets@.len(),
    ensures
        match result {
            Ok(true) => all_sinks_reached(*graph, placement, *route),
            Ok(false) => !all_sinks_reached(*graph, placement, *route),
            Err(PnrError::MissingPlacement { cell }) => placement.bel_of(cell) is None,
            Err(error) => error is Model,
        },
        result is Err ==> exists|k: int|
            0 <= k < graph.design.nets@[route.net.0 as int].sinks@.len() && pin_wire(
                *graph,
                placement,
                #[trigger] graph.design.nets@[route.net.0 as int].sinks@[k],
            ) is None,
{
    let net = &graph.design().nets[route.net.0];
    let mut index: usize = 0;
    while index < net.sinks.len()
        invariant
            index <= net.sinks@.len(),
            graph.wf(),
            placement.fits(graph.device),
            pin_wires.holds(*graph, placement),
            route.net.0 < graph.design.nets@.len(),
            *net == graph.design.nets@[route.net.0 as int],
            forall|k: int|
                0 <= k < index ==> sink_reached(*graph, placement, *route, #[trigger] net.sinks@[k]),
        decreases net.sinks@.len() - index,
    {
        let sink = net.sinks[index];
        assert(graph.design.nets@[route.net.0 as int].sinks@[index as int] == sink);
        let cell = graph.design().pins[sink.0].cell;
        let bel = match placement.bel(cell) {
            None => {
                return Err(PnrError::MissingPlacement { cell });
            },
            Some(bel) => bel,
        };
        let wire = match pin_wires.resolve(graph, placement, sink, bel) {
            Err(error) => {
                return Err(error);
            },
            Ok(wire) => wire,
        };
        if !arc_ends_at(route, sink, wire) {
            assert(!sink_reached(
                *graph,
                placement,
                *route,
                graph.design.nets@[route.net.0 as int].sinks@[index as int],
            ));
            return Ok(false);
        }
        index = index + 1;
    }
    Ok(true)
}

/// The route ends on the wire of the sink.
pub open spec fn sink_reached(
    graph: UnifiedGraph<'_>,
    placement: &Placement,
    route: NetRoute,
    sink: CellPinId,
) -> bool {
    pin_wire(graph, placement, sink) matches Some(wire) && ends_at(route, sink, wire)
}

/// The route ends on the wire of every sink of its net.
pub open spec fn all_sinks_reached(
    graph: UnifiedGraph<'_>,
    placement: &Placement,
    route: NetRoute,
) -> bool {
    forall|k: int|
        0 <= k < graph.design.nets@[route.net.0 as int].sinks@.len() ==> sink_reached(
            graph,
            placement,
            route,
            #[trigger] graph.design.nets@[route.net.0 as int].sinks@[k],
        )
}

} // verus!
