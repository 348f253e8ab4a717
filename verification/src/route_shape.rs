//! Shape of a routed net: arcs that never enter one wire in two ways form a tree.

use vstd::prelude::*;
use vstd::set_lib::lemma_map_size;

use crate::device::Device;
use crate::model::{PipId, WireId};
use crate::net_routing::{consistent, hops_agree};
use crate::route::{NetRoute, RouteArc};

verus! {

/// The route has one wire more than it has PIPs.
pub open spec fn is_tree(route: NetRoute) -> bool {
    route.wire_refs.ordered().len() == route.pip_refs.ordered().len() + 1
}

/// The arcs are paths from the driver.
pub open spec fn start_at(device: &Device, driver: WireId, arcs: Seq<RouteArc>) -> bool {
    forall|i: int| 0 <= i < arcs.len() ==> (#[trigger] arcs[i]).is_path(device, driver)
}

/// A wire stands at one distance from the driver in every arc.
proof fn lemma_one_depth(
    device: &Device,
    driver: WireId,
    arcs: Seq<RouteArc>,
    a: int,
    i: int,
    b: int,
    j: int,
)
    requires
        start_at(device, driver, arcs),
        consistent(arcs),
        0 <= a < arcs.len(),
        0 <= b < arcs.len(),
        0 <= i < arcs[a].wires@.len(),
        0 <= j < arcs[b].wires@.len(),
        arcs[a].wires@[i] == arcs[b].wires@[j],
    ensures
        i == j,
    decreases i,
{
    assert(arcs[a].is_path(device, driver));
    assert(arcs[b].is_path(device, driver));
    if i == 0 {
        assert(arcs[b].wires@[0] == arcs[b].wires@[j]);
    } else if j == 0 {
        assert(arcs[a].wires@[0] == arcs[a].wires@[i]);
    } else {
        assert(hops_agree(arcs, a, i - 1, b, j - 1));
        lemma_one_depth(device, driver, arcs, a, i - 1, b, j - 1);
    }
}

/// Position of a use of the PIP.
spec fn takes(arcs: Seq<RouteArc>, pip: PipId, a: int, i: int) -> bool {
    0 <= a < arcs.len() && 0 <= i < arcs[a].pips@.len() && arcs[a].pips@[i] == pip
}

/// Wire that the PIP leads to.
spec fn entered(arcs: Seq<RouteArc>, pip: PipId) -> WireId {
    let (a, i) = choose|a: int, i: int| takes(arcs, pip, a, i);
    arcs[a].wires@[i + 1]
}

/// Every use of a PIP enters the same wire.
proof fn lemma_entered(
    device: &Device,
    driver: WireId,
    arcs: Seq<RouteArc>,
    pip: PipId,
    a: int,
    i: int,
)
    requires
        start_at(device, driver, arcs),
        consistent(arcs),
        takes(arcs, pip, a, i),
    ensures
        entered(arcs, pip) == arcs[a].wires@[i + 1],
{
    let (b, j) = choose|a: int, i: int| takes(arcs, pip, a, i);
    assert(takes(arcs, pip, b, j));
    assert(arcs[a].is_path(device, driver));
    assert(arcs[b].is_path(device, driver));
    assert(device.leads(arcs[a].wires@[i], arcs[a].pips@[i], arcs[a].wires@[i + 1]));
    assert(device.leads(arcs[b].wires@[j], arcs[b].pips@[j], arcs[b].wires@[j + 1]));
    if arcs[a].wires@[i + 1] != arcs[b].wires@[j + 1] {
        assert(arcs[a].wires@[i] == arcs[b].wires@[j + 1]);
        assert(arcs[a].wires@[i + 1] == arcs[b].wires@[j]);
        lemma_one_depth(device, driver, arcs, a, i, b, j + 1);
        lemma_one_depth(device, driver, arcs, a, i + 1, b, j);
    }
}

/// Arcs from one driver that never enter a wire in two ways form a tree: the
/// route has one wire more than it has PIPs.
pub proof fn consistent_route_is_tree(device: &Device, driver: WireId, route: NetRoute)
    requires
        route.is_fresh(),
        route.arcs@.len() > 0,
        start_at(device, driver, route.arcs@),
        consistent(route.arcs@),
    ensures
        is_tree(route),
{
    let arcs = route.arcs@;
    route.lemma_resources();
    route.wire_refs.lemma_size();
    route.pip_refs.lemma_size();
    let wires = route.wire_refs@.dom();
    let pips = route.pip_refs@.dom();
    let f = |p: PipId| entered(arcs, p);
    assert(arcs[0].is_path(device, driver));
    assert(arcs[0].wires@.contains(driver));
    assert(route.has_wire(driver));
    assert forall|p: PipId| pips.contains(p) implies exists|a: int, i: int|
        takes(arcs, p, a, i) by {
        assert(route.has_pip(p));
        let a = choose|a: int| 0 <= a < arcs.len() && (#[trigger] arcs[a]).pips@.contains(p);
        let i = arcs[a].pips@.index_of(p);
        assert(takes(arcs, p, a, i));
    }
    assert forall|p: PipId, q: PipId|
        pips.contains(p) && pips.contains(q) && #[trigger] f(p) == #[trigger] f(q) implies p == q by {
        let (a, i) = choose|a: int, i: int| takes(arcs, p, a, i);
        let (b, j) = choose|a: int, i: int| takes(arcs, q, a, i);
        assert(takes(arcs, p, a, i));
        assert(takes(arcs, q, b, j));
        assert(hops_agree(arcs, a, i, b, j));
    }
    assert(pips.map(f) =~= wires.remove(driver)) by {
        assert forall|w: WireId| #[trigger] pips.map(f).contains(w) <==> wires.remove(
            driver,
        ).contains(w) by {
            if pips.map(f).contains(w) {
                let p = choose|p: PipId| pips.contains(p) && f(p) == w;
                let (a, i) = choose|a: int, i: int| takes(arcs, p, a, i);
                assert(takes(arcs, p, a, i));
                assert(arcs[a].is_path(device, driver));
                assert(arcs[a].wires@.contains(arcs[a].wires@[i + 1]));
                assert(route.has_wire(w));
                assert(arcs[a].wires@[0] != arcs[a].wires@[i + 1]);
            }
            if wires.contains(w) && w != driver {
                assert(route.has_wire(w));
                let a = choose|a: int|
                    0 <= a < arcs.len() && (#[trigger] arcs[a]).wires@.contains(w);
                let k = arcs[a].wires@.index_of(w);
                assert(arcs[a].is_path(device, driver));
                let p = arcs[a].pips@[k - 1];
                assert(takes(arcs, p, a, k - 1));
                assert(arcs[a].pips@.contains(p));
                assert(route.has_pip(p));
                lemma_entered(device, driver, arcs, p, a, k - 1);
                assert(pips.contains(p) && f(p) == w);
            }
        }
    }
    lemma_map_size(pips, wires.remove(driver), f);
}

} // verus!
