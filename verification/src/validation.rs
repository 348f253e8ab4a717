//! Checks on target-supplied routing constraints and costs.


use vstd::prelude::*;
use vstd::string::*;

use crate::device::{Device, UnifiedGraph};
use crate::error::PnrError;
use crate::hold::visits_once;
use crate::model::{CellPinId, NetId, PipId, WireId};
use crate::net_routing::{arc_fits, arcs_fit, distinct_sinks, driver_wire};
use crate::ordered::{OrderedKey, OrderedMap, OrderedSet};
use crate::placement::{PinWireCache, Placement};
use crate::route::{
    counts_uses, pip_uses, route_resource_refs, wire_uses, NetRoute, RouteArc,
};
use crate::routing_constraints::RoutingConstraints;
use crate::text::{decimal_text, numbered};

verus! {

/// Every forbidden PIP is on the device.
pub open spec fn restrictions_fit(device: &Device, constraints: &RoutingConstraints) -> bool {
    forall|p: PipId| #[trigger]
        constraints.blocked_pips@.contains(p) ==> p.0 < device.pips@.len()
}

/// The reason names the least forbidden PIP that is not on the device.
pub open spec fn restriction_defect(
    device: &Device,
    constraints: &RoutingConstraints,
    reason: Seq<char>,
) -> bool {
    exists|p: PipId|
        {
            &&& #[trigger] constraints.blocked_pips@.contains(p)
            &&& p.0 >= device.pips@.len()
            &&& forall|q: PipId| #[trigger]
                constraints.blocked_pips@.contains(q) && q.0 >= device.pips@.len() ==> p.0 <= q.0
            &&& reason == "blocked PIP ID "@ + decimal_text(p.0 as nat)
                + " is outside the device"@
        }
}

/// Checks that every forbidden PIP is on the device.
pub fn validate_routing_restrictions(device: &Device, constraints: &RoutingConstraints) -> (result:
    Result<(), PnrError>)
    requires
        constraints.wf(),
    ensures
        match result {
            Ok(()) => restrictions_fit(device, constraints),
            Err(error) => error matches PnrError::InvalidRoutingRestriction { reason }
                && restriction_defect(device, constraints, reason@),
        },
{
    let blocked = constraints.blocked_pips();
    let mut index: usize = 0;
    while index < blocked.len()
        invariant
            index <= blocked.ordered().len(),
            *blocked == constraints.blocked_pips,
            blocked.wf(),
            forall|i: int|
                0 <= i < index ==> (#[trigger] blocked.ordered()[i]).0 < device.pips@.len(),
        decreases blocked.ordered().len() - index,
    {
        let pip = blocked.at(index);
        if pip.0 >= device.pips.len() {
            proof {
                assert forall|q: PipId| #[trigger] constraints.blocked_pips@.contains(q) && q.0
                    >= device.pips@.len() implies pip.0 <= q.0 by {
                    blocked.membership(q);
                    let j = blocked.ordered().index_of(q);
                    assert(j >= index);
                    if j > index {
                        assert(blocked.ordered()[index as int].rank() < blocked.ordered()[j].rank());
                    }
                }
            }
            return Err(
                PnrError::InvalidRoutingRestriction {
                    reason: numbered("blocked PIP ID ", pip.0, " is outside the device"),
                },
            );
        }
        index = index + 1;
    }
    proof {
        assert forall|p: PipId| #[trigger] constraints.blocked_pips@.contains(p) implies p.0
            < device.pips@.len() by {
            blocked.membership(p);
            let j = blocked.ordered().index_of(p);
            assert(blocked.ordered()[j] == p);
        }
    }
    Ok(())
}

/// The immutable route fits the design, the placement, and the restrictions.
pub open spec fn route_fits(
    graph: UnifiedGraph<'_>,
    placement: &Placement,
    constraints: &RoutingConstraints,
    net: NetId,
    route: NetRoute,
) -> bool {
    &&& net.0 < graph.design.nets@.len()
    &&& route.net == net
    &&& driver_wire(graph, placement, net) is Some
    &&& route.is_fresh()
    &&& arcs_fit(graph, placement, net, driver_wire(graph, placement, net)->0, route.arcs@)
    &&& forall|i: int, k: int|
        #![trigger route.arcs@[i].pips@[k]]
        0 <= i < route.arcs@.len() && 0 <= k < route.arcs@[i].pips@.len()
            ==> !constraints.blocked_pips@.contains(route.arcs@[i].pips@[k])
}

/// Every immutable route fits, and every forbidden PIP is on the device.
pub open spec fn constraints_fit(
    graph: UnifiedGraph<'_>,
    placement: &Placement,
    constraints: &RoutingConstraints,
) -> bool {
    &&& restrictions_fit(graph.device, constraints)
    &&& forall|n: NetId| #[trigger]
        constraints.routes@.contains_key(n) ==> route_fits(
            graph,
            placement,
            constraints,
            n,
            *constraints.routes@[n],
        )
}

/// Why the routing constraints were refused.
pub open spec fn constraint_defect(
    graph: UnifiedGraph<'_>,
    placement: &Placement,
    constraints: &RoutingConstraints,
    error: PnrError,
) -> bool {
    match error {
        PnrError::InvalidRoutingRestriction { reason } => restriction_defect(
            graph.device,
            constraints,
            reason@,
        ),
        PnrError::InvalidRoutingConstraint { net, reason } => {
            &&& restrictions_fit(graph.device, constraints)
            &&& constraints.routes@.contains_key(net)
            &&& !route_fits(graph, placement, constraints, net, *constraints.routes@[net])
        },
        PnrError::MissingPlacement { cell } => {
            &&& restrictions_fit(graph.device, constraints)
            &&& placement.bel_of(cell) is None
            &&& exists|n: NetId| #[trigger]
                constraints.routes@.contains_key(n) && !route_fits(
                    graph,
                    placement,
                    constraints,
                    n,
                    *constraints.routes@[n],
                )
        },
        PnrError::Model(_) => {
            &&& restrictions_fit(graph.device, constraints)
            &&& exists|n: NetId| #[trigger]
                constraints.routes@.contains_key(n) && !route_fits(
                    graph,
                    placement,
                    constraints,
                    n,
                    *constraints.routes@[n],
                )
        },
        _ => false,
    }
}

/// Refusal of one immutable route.
fn refuse(net: NetId, reason: String) -> (result: PnrError)
    ensures
        result == (PnrError::InvalidRoutingConstraint { net, reason }),
{
    PnrError::InvalidRoutingConstraint { net, reason }
}

/// Whether two tables hold the same entries.
fn same_counts<K: OrderedKey>(a: &OrderedMap<K, u32>, b: &OrderedMap<K, u32>) -> (result: bool)
    requires
        a.wf(),
        b.wf(),
    ensures
        result == (a@ == b@),
{
    if a.len() != b.len() {
        proof {
            if a@ == b@ {
                a.lemma_size();
                b.lemma_size();
            }
        }
        return false;
    }
    let mut index: usize = 0;
    while index < a.len()
        invariant
            index <= a.ordered().len(),
            a.ordered().len() == b.ordered().len(),
            a.wf(),
            b.wf(),
            forall|i: int|
                0 <= i < index ==> b@.contains_key(#[trigger] a.ordered()[i])
                    && b@[a.ordered()[i]] == a@[a.ordered()[i]],
        decreases a.ordered().len() - index,
    {
        let key = a.key_at(index);
        let value: u32 = *a.value_at(index);
        proof {
            a.entry(index as int);
        }
        match b.get(key) {
            None => {
                assert(a@.contains_key(key) && !b@.contains_key(key));
                return false;
            },
            Some(other) => {
                if *other != value {
                    return false;
                }
            },
        }
        index = index + 1;
    }
    proof {
        assert forall|k: K| #[trigger] a@.contains_key(k) implies b@.contains_key(k) && b@[k]
            == a@[k] by {
            let i = a.key_index(k);
            assert(a.ordered()[i] == k);
        }
        a.lemma_size();
        b.lemma_size();
        assert(a@.dom().subset_of(b@.dom()));
        vstd::set_lib::lemma_subset_equality(a@.dom(), b@.dom());
        assert(a@ =~= b@);
    }
    true
}

/// Whether the reference counts of a route are those of its arcs.
fn counts_are_fresh(route: &NetRoute) -> (result: bool)
    requires
        route.wf(),
    ensures
        result == route.is_fresh(),
{
    let refs = route_resource_refs(&route.arcs);
    let result = same_counts(&refs.0, &route.wire_refs) && same_counts(&refs.1, &route.pip_refs);
    proof {
        let wires = |w: WireId| wire_uses(route.arcs@, w);
        let pips = |p: PipId| pip_uses(route.arcs@, p);
        if result {
            lemma_same_view_counts(refs.0, route.wire_refs, wires);
            lemma_same_view_counts(refs.1, route.pip_refs, pips);
        }
        if route.is_fresh() {
            lemma_counts_unique(refs.0, route.wire_refs, wires);
            lemma_counts_unique(refs.1, route.pip_refs, pips);
        }
    }
    result
}

/// A table with the entries of a count is that count.
proof fn lemma_same_view_counts<K: OrderedKey>(
    a: OrderedMap<K, u32>,
    b: OrderedMap<K, u32>,
    uses: spec_fn(K) -> nat,
)
    requires
        counts_uses(a, uses),
        b.wf(),
        a@ == b@,
    ensures
        counts_uses(b, uses),
{
    assert forall|k: K| #[trigger] b@.contains_key(k) <==> uses(k) > 0 by {
        assert(a@.contains_key(k) <==> uses(k) > 0);
    }
    assert forall|k: K| #[trigger] b@.contains_key(k) implies b@[k] == crate::cost::clip_u32(
        uses(k) as int,
    ) by {
        assert(a@.contains_key(k));
    }
}

/// Two counts of the same uses have the same entries.
proof fn lemma_counts_unique<K: OrderedKey>(
    a: OrderedMap<K, u32>,
    b: OrderedMap<K, u32>,
    uses: spec_fn(K) -> nat,
)
    requires
        counts_uses(a, uses),
        counts_uses(b, uses),
    ensures
        a@ == b@,
{
    assert forall|k: K| #[trigger] a@.contains_key(k) <==> b@.contains_key(k) by {
        assert(a@.contains_key(k) <==> uses(k) > 0);
        assert(b@.contains_key(k) <==> uses(k) > 0);
    }
    assert forall|k: K| #[trigger] a@.contains_key(k) implies a@[k] == b@[k] by {
        assert(b@.contains_key(k));
    }
    assert(a@ =~= b@);
}

/// One arc of an immutable route fits and takes no forbidden PIP.
spec fn arc_allowed(
    graph: UnifiedGraph<'_>,
    placement: &Placement,
    constraints: &RoutingConstraints,
    net: NetId,
    driver: WireId,
    arc: RouteArc,
) -> bool {
    &&& arc_fits(graph, placement, net, driver, arc)
    &&& forall|k: int|
        0 <= k < arc.pips@.len() ==> !constraints.blocked_pips@.contains(#[trigger] arc.pips@[k])
}

/// Whether a net has the sink.
pub(crate) fn has_sink(sinks: &Vec<CellPinId>, sink: CellPinId) -> (result: bool)
    ensures
        result == sinks@.contains(sink),
{
    let mut index: usize = 0;
    while index < sinks.len()
        invariant
            index <= sinks@.len(),
            forall|k: int| 0 <= k < index ==> #[trigger] sinks@[k] != sink,
        decreases sinks@.len() - index,
    {
        if sinks[index] == sink {
            return true;
        }
        index = index + 1;
    }
    false
}

/// Checks the wires and PIPs of one arc.
pub(crate) fn check_arc_path(
    device: &Device,
    constraints: &RoutingConstraints,
    net: NetId,
    driver: WireId,
    arc: &RouteArc,
) -> (result: Result<(), PnrError>)
    requires
        constraints.wf(),
    ensures
        result is Ok <==> arc.is_path(device, driver) && forall|k: int|
            0 <= k < arc.pips@.len() ==> !constraints.blocked_pips@.contains(
                #[trigger] arc.pips@[k],
            ),
        result matches Err(error) ==> error matches PnrError::InvalidRoutingConstraint {
            net: named,
            ..
        } && named == net,
{
    if arc.wires.len() == 0 || arc.wires[0] != driver {
        return Err(
            refuse(
                net,
                String::from_str("route arc does not start at the placed driver wire"),
            ),
        );
    }
    if arc.pips.len() != arc.wires.len() - 1 {
        return Err(
            refuse(net, String::from_str("route arc does not have one PIP between each wire")),
        );
    }
    if !visits_once(&arc.wires) {
        return Err(refuse(net, String::from_str("route arc contains a cycle")));
    }
    let mut index: usize = 0;
    while index < arc.pips.len()
        invariant
            index <= arc.pips@.len(),
            constraints.wf(),
            arc.wires@.len() == arc.pips@.len() + 1,
            forall|k: int|
                0 <= k < index ==> !constraints.blocked_pips@.contains(#[trigger] arc.pips@[k])
                    && device.leads(arc.wires@[k], arc.pips@[k], arc.wires@[k + 1]),
        decreases arc.pips@.len() - index,
    {
        let pip = arc.pips[index];
        if constraints.blocked_pips.contains(pip) {
            assert(constraints.blocked_pips@.contains(arc.pips@[index as int]));
            return Err(refuse(net, numbered("immutable route uses blocked PIP ", pip.0, "")));
        }
        if pip.0 >= device.pips.len() {
            assert(!device.leads(
                arc.wires@[index as int],
                arc.pips@[index as int],
                arc.wires@[index + 1],
            ));
            return Err(refuse(net, numbered("unknown PIP PipId(", pip.0, ")")));
        }
        if !device.pips[pip.0].passes(arc.wires[index], arc.wires[index + 1]) {
            assert(!device.leads(
                arc.wires@[index as int],
                arc.pips@[index as int],
                arc.wires@[index + 1],
            ));
            return Err(
                refuse(
                    net,
                    numbered("PIP PipId(", pip.0, ") does not connect its adjacent arc wires"),
                ),
            );
        }
        index = index + 1;
    }
    Ok(())
}

/// Checks one arc of an immutable route.
fn check_arc(
    graph: &UnifiedGraph<'_>,
    placement: &Placement,
    pin_wires: &PinWireCache,
    constraints: &RoutingConstraints,
    net: NetId,
    driver: WireId,
    arc: &RouteArc,
    routed_sinks: &mut OrderedSet<CellPinId>,
) -> (result: Result<(), PnrError>)
    requires
        graph.wf(),
        placement.fits(graph.device),
        pin_wires.holds(*graph, placement),
        constraints.wf(),
        net.0 < graph.design.nets@.len(),
        old(routed_sinks).wf(),
    ensures
        final(routed_sinks).wf(),
        result is Ok <==> arc_allowed(*graph, placement, constraints, net, driver, *arc) && (
        arc.sink matches Some(sink) ==> !old(routed_sinks)@.contains(sink)),
        result is Ok ==> final(routed_sinks)@ == match arc.sink {
            Some(sink) => old(routed_sinks)@.insert(sink),
            None => old(routed_sinks)@,
        },
        result matches Err(error) ==> match error {
            PnrError::InvalidRoutingConstraint { net: named, .. } => named == net,
            PnrError::MissingPlacement { cell } => placement.bel_of(cell) is None,
            PnrError::Model(_) => true,
            _ => false,
        },
{
    let device = graph.device();
    let design = graph.design();
    match check_arc_path(device, constraints, net, driver, arc) {
        Err(error) => {
            return Err(error);
        },
        Ok(()) => {},
    }
    if let Some(sink) = arc.sink {
        if !has_sink(&design.nets[net.0].sinks, sink) || !routed_sinks.insert(sink) {
            return Err(
                refuse(
                    net,
                    numbered("sink pin ", sink.0, " is unknown or has multiple arcs"),
                ),
            );
        }
        proof {
            let sinks = design.nets@[net.0 as int].sinks@;
            let k = sinks.index_of(sink);
            assert(design.nets@[net.0 as int].sinks@[k] == sink);
        }
        let cell = design.pins[sink.0].cell;
        let bel = match placement.bel(cell) {
            None => {
                return Err(PnrError::MissingPlacement { cell });
            },
            Some(bel) => bel,
        };
        let wire = match pin_wires.resolve(graph, placement, sink, bel) {
            Err(error) => {
                return Err(error);
            },
            Ok(wire) => wire,
        };
        if arc.wires[arc.wires.len() - 1] != wire {
            return Err(
                refuse(net, numbered("route arc ends away from sink pin ", sink.0, "")),
            );
        }
    }
    Ok(())
}

/// Checks one immutable route.
fn check_route(
    graph: &UnifiedGraph<'_>,
    placement: &Placement,
    pin_wires: &PinWireCache,
    constraints: &RoutingConstraints,
    net: NetId,
    route: &NetRoute,
) -> (result: Result<(), PnrError>)
    requires
        graph.wf(),
        placement.fits(graph.device),
        pin_wires.holds(*graph, placement),
        constraints.wf(),
        route.wf(),
    ensures
        result is Ok <==> route_fits(*graph, placement, constraints, net, *route),
        result matches Err(error) ==> match error {
            PnrError::InvalidRoutingConstraint { net: named, .. } => named == net,
            PnrError::MissingPlacement { cell } => placement.bel_of(cell) is None,
            PnrError::Model(_) => true,
            _ => false,
        },
{
    let design = graph.design();
    if net.0 >= design.nets.len() {
        return Err(refuse(net, String::from_str("net ID is outside the design")));
    }
    if route.net != net {
        return Err(refuse(net, String::from_str("route key and route net differ")));
    }
    let driver_pin = design.nets[net.0].driver;
    let driver_cell = design.pins[driver_pin.0].cell;
    let driver_bel = match placement.bel(driver_cell) {
        None => {
            return Err(PnrError::MissingPlacement { cell: driver_cell });
        },
        Some(bel) => bel,
    };
    let driver = match pin_wires.resolve(graph, placement, driver_pin, driver_bel) {
        Err(error) => {
            return Err(error);
        },
        Ok(wire) => wire,
    };
    if !counts_are_fresh(route) {
        return Err(refuse(net, String::from_str("route resource reference counts are stale")));
    }
    let mut routed_sinks: OrderedSet<CellPinId> = OrderedSet::new();
    let mut index: usize = 0;
    while index < route.arcs.len()
        invariant
            index <= route.arcs@.len(),
            graph.wf(),
            placement.fits(graph.device),
            pin_wires.holds(*graph, placement),
            constraints.wf(),
            net.0 < graph.design.nets@.len(),
            driver_wire(*graph, placement, net) == Some(driver),
            routed_sinks.wf(),
            forall|i: int|
                0 <= i < index ==> arc_allowed(
                    *graph,
                    placement,
                    constraints,
                    net,
                    driver,
                    #[trigger] route.arcs@[i],
                ),
            distinct_sinks(route.arcs@.take(index as int)),
            forall|s: CellPinId| #[trigger]
                routed_sinks@.contains(s) <==> exists|i: int|
                    0 <= i < index && (#[trigger] route.arcs@[i]).sink == Some(s),
        decreases route.arcs@.len() - index,
    {
        let ghost earlier = routed_sinks@;
        match check_arc(
            graph,
            placement,
            pin_wires,
            constraints,
            net,
            driver,
            &route.arcs[index],
            &mut routed_sinks,
        ) {
            Err(error) => {
                proof {
                    if route_fits(*graph, placement, constraints, net, *route) {
                        let arc = route.arcs@[index as int];
                        assert(arc_fits(*graph, placement, net, driver, arc));
                        assert forall|k: int| 0 <= k < arc.pips@.len() implies !constraints.blocked_pips@.contains(
                            #[trigger] arc.pips@[k],
                        ) by {
                            assert(route.arcs@[index as int].pips@[k] == arc.pips@[k]);
                        }
                        assert(arc_allowed(*graph, placement, constraints, net, driver, arc));
                        let sink = arc.sink->0;
                        assert(earlier.contains(sink));
                        let i = choose|i: int|
                            0 <= i < index && (#[trigger] route.arcs@[i]).sink == Some(sink);
                        assert(route.arcs@[i].sink != route.arcs@[index as int].sink);
                    }
                }
                return Err(error);
            },
            Ok(()) => {},
        }
        proof {
            let arcs = route.arcs@;
            let longer = arcs.take(index + 1);
            let shorter = arcs.take(index as int);
            assert forall|a: int, b: int|
                0 <= a < b < longer.len() && (#[trigger] longer[a]).sink is Some implies longer[a].sink
                != (#[trigger] longer[b]).sink by {
                if b == index {
                    if arcs[a].sink == arcs[b].sink {
                        let sink = arcs[b].sink->0;
                        assert(arcs[a].sink == Some(sink));
                        assert(earlier.contains(sink));
                    }
                } else {
                    assert(shorter[a].sink != shorter[b].sink);
                }
            }
            assert forall|s: CellPinId| #[trigger] routed_sinks@.contains(s) <==> exists|i: int|
                0 <= i < index + 1 && (#[trigger] route.arcs@[i]).sink == Some(s) by {
                if earlier.contains(s) {
                    let i = choose|i: int|
                        0 <= i < index && (#[trigger] route.arcs@[i]).sink == Some(s);
                    assert(route.arcs@[i].sink == Some(s));
                }
                if route.arcs@[index as int].sink == Some(s) {
                    assert(routed_sinks@.contains(s));
                }
                if exists|i: int|
                    0 <= i < index + 1 && (#[trigger] route.arcs@[i]).sink == Some(s) {
                    let i = choose|i: int|
                        0 <= i < index + 1 && (#[trigger] route.arcs@[i]).sink == Some(s);
                    if i < index {
                        assert(route.arcs@[i].sink == Some(s));
                        assert(earlier.contains(s));
                    }
                }
            }
        }
        index = index + 1;
    }
    proof {
        assert(route.arcs@.take(index as int) =~= route.arcs@);
        assert forall|i: int| 0 <= i < route.arcs@.len() implies arc_fits(
            *graph,
            placement,
            net,
            driver,
            #[trigger] route.arcs@[i],
        ) by {
            assert(arc_allowed(*graph, placement, constraints, net, driver, route.arcs@[i]));
        }
        assert forall|i: int, k: int|
            #![trigger route.arcs@[i].pips@[k]]
            0 <= i < route.arcs@.len() && 0 <= k
                < route.arcs@[i].pips@.len() implies !constraints.blocked_pips@.contains(
            route.arcs@[i].pips@[k],
        ) by {
            assert(arc_allowed(*graph, placement, constraints, net, driver, route.arcs@[i]));
        }
    }
    Ok(())
}

/// Checks the forbidden PIPs and every immutable route.
pub fn validate_routing_constraints(
    graph: &UnifiedGraph<'_>,
    placement: &Placement,
    pin_wires: &PinWireCache,
    constraints: &RoutingConstraints,
) -> (result: Result<(), PnrError>)
    requires
        graph.wf(),
        placement.fits(graph.device),
        pin_wires.holds(*graph, placement),
        constraints.wf(),
    ensures
        match result {
            Ok(()) => constraints_fit(*graph, placement, constraints),
            Err(error) => !constraints_fit(*graph, placement, constraints) && constraint_defect(
                *graph,
                placement,
                constraints,
                error,
            ),
        },
{
    match validate_routing_restrictions(graph.device(), constraints) {
        Err(error) => {
            return Err(error);
        },
        Ok(()) => {},
    }
    let routes = constraints.routes();
    let mut index: usize = 0;
    while index < routes.len()
        invariant
            index <= routes.ordered().len(),
            graph.wf(),
            placement.fits(graph.device),
            pin_wires.holds(*graph, placement),
            constraints.wf(),
            *routes == constraints.routes,
            restrictions_fit(graph.device, constraints),
            forall|i: int|
                0 <= i < index ==> route_fits(
                    *graph,
                    placement,
                    constraints,
                    #[trigger] routes.ordered()[i],
                    *constraints.routes@[routes.ordered()[i]],
                ),
        decreases routes.ordered().len() - index,
    {
        let net = routes.key_at(index);
        let route = routes.value_at(index);
        proof {
            routes.entry(index as int);
            assert(constraints.routes@.contains_key(net));
        }
        match check_route(graph, placement, pin_wires, constraints, net, route) {
            Err(error) => {
                return Err(error);
            },
            Ok(()) => {},
        }
        index = index + 1;
    }
    proof {
        assert forall|n: NetId| #[trigger] constraints.routes@.contains_key(n) implies route_fits(
            *graph,
            placement,
            constraints,
            n,
            *constraints.routes@[n],
        ) by {
            let i = routes.key_index(n);
            assert(routes.ordered()[i] == n);
        }
    }
    Ok(())
}

} // verus!
