//! What every placement and every routing keeps to.

use std::sync::Arc;

use vstd::prelude::*;

use crate::candidates::choice_wire;
use crate::device::UnifiedGraph;
use crate::finish::{all_placed, is_finished, lemma_wire_nets_finite};
use crate::model::{BelId, CellId, CellPinId, NetId, PinChoice, PipId, WireId};
use crate::negotiate::within_capacity;
use crate::occupancy::{pip_sets, slot_pips, slot_wires, users, wire_sets};
use crate::ordered::OrderedKey;
use crate::placement::Placement;
use crate::placement_constraints::{PlacementConstraints, PlacementGroup};
use crate::placement_edit::bindings_fit;
use crate::route::NetRoute;
use crate::routing::routes_serve;
use crate::routing_constraints::RoutingConstraints;
use crate::usage_model::{
    hits, placed_hits, placed_values, puts_value, wire_nets, SharedSite,
};
use crate::workspace::filled;

verus! {

/// A value that some cell puts on a site is counted there.
proof fn lemma_value_counts(
    constraints: &PlacementConstraints,
    placed: Seq<Option<BelId>>,
    cell: int,
    site: SharedSite,
    value: u64,
)
    requires
        0 <= cell < placed.len(),
        placed[cell] matches Some(bel) && puts_value(
            constraints,
            CellId(cell as usize),
            bel,
            site,
            value,
        ),
    ensures
        placed_values(constraints, placed, site, value) > 0,
    decreases placed.len(),
{
    if cell < placed.len() - 1 {
        lemma_value_counts(constraints, placed.drop_last(), cell, site, value);
    }
}

/// A pin of the cell that lies on the wire is counted there.
proof fn lemma_pin_counts(
    graph: UnifiedGraph<'_>,
    constraints: &PlacementConstraints,
    pins: Seq<CellPinId>,
    at: int,
    bel: BelId,
    wire: WireId,
    net: NetId,
)
    requires
        0 <= at < pins.len(),
        graph.design.pins@[pins[at].0 as int].net == Some(net),
        choice_wire(graph, constraints, pins[at], bel) == Some(wire),
    ensures
        hits(graph, constraints, pins, bel, wire, net) > 0,
    decreases pins.len(),
{
    if at < pins.len() - 1 {
        lemma_pin_counts(graph, constraints, pins.drop_last(), at, bel, wire, net);
    }
}

/// A net with a pin on the wire is counted there.
proof fn lemma_net_counts(
    graph: UnifiedGraph<'_>,
    constraints: &PlacementConstraints,
    placed: Seq<Option<BelId>>,
    cell: int,
    at: int,
    wire: WireId,
    net: NetId,
)
    requires
        0 <= cell < placed.len(),
        0 <= at < graph.design.cells@[cell].pins@.len(),
        graph.design.pins@[graph.design.cells@[cell].pins@[at].0 as int].net == Some(net),
        placed[cell] matches Some(bel) && choice_wire(
            graph,
            constraints,
            graph.design.cells@[cell].pins@[at],
            bel,
        ) == Some(wire),
    ensures
        placed_hits(graph, constraints, placed, wire, net) > 0,
    decreases placed.len(),
{
    if cell < placed.len() - 1 {
        lemma_net_counts(graph, constraints, placed.drop_last(), cell, at, wire, net);
    } else {
        lemma_pin_counts(
            graph,
            constraints,
            graph.design.cells@[cell].pins@,
            at,
            placed[cell]->0,
            wire,
            net,
        );
    }
}

/// The cells of the group stand on one of its rows, each in its column.
pub open spec fn is_on_a_row(group: PlacementGroup, bindings: Seq<BelId>) -> bool {
    exists|r: int|
        {
            &&& 0 <= r < group.assignments@.len()
            &&& (#[trigger] group.assignments@[r])@.len() == group.cells@.len()
            &&& forall|k: int|
                0 <= k < group.cells@.len() ==> bindings[(#[trigger] group.cells@[k]).0 as int]
                    == group.assignments@[r]@[k]
        }
}

/// A finished placement puts every cell on a BEL of its own kind that no other cell
/// takes, and every group on one of its rows.
pub proof fn a_placement_binds_cells_to_their_kind(
    graph: UnifiedGraph<'_>,
    constraints: &PlacementConstraints,
    placement: Placement,
)
    requires
        bindings_fit(graph, constraints, placement.bindings@),
        is_finished(graph, constraints, placement.bindings@, placement),
    ensures
        placement.bindings@.len() == graph.design.cells@.len(),
        forall|c: int|
            0 <= c < placement.bindings@.len() ==> (#[trigger] placement.bindings@[c]).0
                < graph.device.bels@.len() && graph.device.bels@[placement.bindings@[c].0 as int].kind
                == graph.design.cells@[c].kind,
        forall|c: int, d: int|
            0 <= c < d < placement.bindings@.len() ==> #[trigger] placement.bindings@[c]
                != #[trigger] placement.bindings@[d],
        forall|g: int|
            0 <= g < constraints.groups@.len() ==> is_on_a_row(
                #[trigger] constraints.groups@[g],
                placement.bindings@,
            ),
{
    let bindings = placement.bindings@;
    assert forall|c: int| 0 <= c < bindings.len() implies (#[trigger] bindings[c]).0
        < graph.device.bels@.len() && graph.device.bels@[bindings[c].0 as int].kind
        == graph.design.cells@[c].kind by {
        assert(placement.bindings.len() == bindings.len());
        assert(crate::candidates::can_hold(
            graph,
            constraints,
            CellId(c as usize),
            bindings[c],
        ));
    }
    assert forall|g: int| 0 <= g < constraints.groups@.len() implies is_on_a_row(
        #[trigger] constraints.groups@[g],
        bindings,
    ) by {
        let group = constraints.groups@[g];
        assert(crate::finish::group_matches(group, bindings));
        let row = crate::finish::group_row(group, bindings);
        let r = choose|r: int|
            0 <= r < group.assignments@.len() && (#[trigger] group.assignments@[r])@ == row;
        assert forall|k: int| 0 <= k < group.cells@.len() implies bindings[(
        #[trigger] group.cells@[k]).0 as int] == group.assignments@[r]@[k] by {
            assert(row[k] == bindings[group.cells@[k].0 as int]);
        }
        assert(group.assignments@[r]@.len() == group.cells@.len());
    }
}

/// Cells of a finished placement that a rule gives different values never stand on BELs
/// that the rule gives one resource.
pub proof fn cells_of_different_values_do_not_share_a_site(
    graph: UnifiedGraph<'_>,
    constraints: &PlacementConstraints,
    placement: Placement,
    rule: usize,
    a: CellId,
    b: CellId,
)
    requires
        is_finished(graph, constraints, placement.bindings@, placement),
        rule < constraints.shared_resources@.len(),
        a.0 < placement.bindings@.len(),
        b.0 < placement.bindings@.len(),
        ({
            let shared = constraints.shared_resources@[rule as int];
            let x = placement.bindings@[a.0 as int];
            let y = placement.bindings@[b.0 as int];
            &&& shared.cell_values@.contains_key(a)
            &&& shared.cell_values@.contains_key(b)
            &&& shared.bel_resources@.contains_key(x)
            &&& shared.bel_resources@.contains_key(y)
            &&& shared.bel_resources@[x] == shared.bel_resources@[y]
        }),
    ensures
        constraints.shared_resources@[rule as int].cell_values@[a]
            == constraints.shared_resources@[rule as int].cell_values@[b],
{
    let shared = constraints.shared_resources@[rule as int];
    let placed = all_placed(placement.bindings@);
    let x = placement.bindings@[a.0 as int];
    let y = placement.bindings@[b.0 as int];
    let site = SharedSite { rule, resource: shared.bel_resources@[x] };
    assert(placed[a.0 as int] == Some(x));
    assert(placed[b.0 as int] == Some(y));
    assert(CellId(a.0 as int as usize) == a);
    assert(CellId(b.0 as int as usize) == b);
    lemma_value_counts(constraints, placed, a.0 as int, site, shared.cell_values@[a]);
    lemma_value_counts(constraints, placed, b.0 as int, site, shared.cell_values@[b]);
}

/// Pins of different nets never lie on one wire that carries one net, in a finished
/// placement.
pub proof fn pins_of_different_nets_do_not_share_a_wire(
    graph: UnifiedGraph<'_>,
    constraints: &PlacementConstraints,
    placement: Placement,
    a: (CellId, int),
    b: (CellId, int),
    wire: WireId,
    nets: (NetId, NetId),
)
    requires
        is_finished(graph, constraints, placement.bindings@, placement),
        placement.bindings@.len() == graph.design.cells@.len(),
        a.0.0 < graph.design.cells@.len(),
        b.0.0 < graph.design.cells@.len(),
        0 <= a.1 < graph.design.cells@[a.0.0 as int].pins@.len(),
        0 <= b.1 < graph.design.cells@[b.0.0 as int].pins@.len(),
        wire.0 < graph.device.wires@.len(),
        graph.device.wires@[wire.0 as int].capacity == 1,
        graph.design.pins@[graph.design.cells@[a.0.0 as int].pins@[a.1].0 as int].net == Some(
            nets.0,
        ),
        graph.design.pins@[graph.design.cells@[b.0.0 as int].pins@[b.1].0 as int].net == Some(
            nets.1,
        ),
        choice_wire(
            graph,
            constraints,
            graph.design.cells@[a.0.0 as int].pins@[a.1],
            placement.bindings@[a.0.0 as int],
        ) == Some(wire),
        choice_wire(
            graph,
            constraints,
            graph.design.cells@[b.0.0 as int].pins@[b.1],
            placement.bindings@[b.0.0 as int],
        ) == Some(wire),
    ensures
        nets.0 == nets.1,
{
    let placed = all_placed(placement.bindings@);
    assert(placed[a.0.0 as int] == Some(placement.bindings@[a.0.0 as int]));
    assert(placed[b.0.0 as int] == Some(placement.bindings@[b.0.0 as int]));
    lemma_net_counts(graph, constraints, placed, a.0.0 as int, a.1, wire, nets.0);
    lemma_net_counts(graph, constraints, placed, b.0.0 as int, b.1, wire, nets.1);
    let all = wire_nets(graph, constraints, placed, wire);
    lemma_wire_nets_finite(graph, constraints, placed, wire);
    assert(all.contains(nets.0));
    assert(all.contains(nets.1));
    if nets.0 != nets.1 {
        let pair = set![nets.0, nets.1];
        assert(pair.subset_of(all));
        assert(pair.len() == 2) by {
            assert(set![nets.0].len() == 1);
            assert(!set![nets.0].contains(nets.1));
        }
        vstd::set_lib::lemma_len_subset(pair, all);
    }
}

/// A pin whose BEL the caller's table gives a physical pin takes that one; otherwise one
/// that the caller renamed takes the first pin of its BEL with the new name and its own
/// direction.
pub proof fn a_bound_pin_takes_what_the_tables_say(
    graph: UnifiedGraph<'_>,
    constraints: &PlacementConstraints,
    placement: Placement,
    pin: CellPinId,
)
    requires
        is_finished(graph, constraints, placement.bindings@, placement),
        pin.0 < graph.design.pins@.len(),
    ensures
        ({
            let bel = placement.bindings@[graph.design.pins@[pin.0 as int].cell.0 as int];
            let own = PinChoice { pin, bel };
            &&& constraints.pin_bindings@.contains_key(own)
                ==> placement.pin_bindings@.contains_key(pin) && placement.pin_bindings@[pin]
                == constraints.pin_bindings@[own]
            &&& !constraints.pin_bindings@.contains_key(own)
                && constraints.pin_name_bindings@.contains_key(pin) && bel.0
                < graph.device.bels@.len() ==> {
                let found = placement.pin_bindings@[pin];
                &&& placement.pin_bindings@.contains_key(pin)
                &&& graph.device.bels@[bel.0 as int].pins@.contains(found)
                &&& graph.device.bel_pins@[found.0 as int].name@
                    == constraints.pin_name_bindings@[pin]@
                &&& graph.device.bel_pins@[found.0 as int].direction
                    == graph.design.pins@[pin.0 as int].direction
            }
            &&& !constraints.pin_bindings@.contains_key(own)
                && !constraints.pin_name_bindings@.contains_key(pin)
                ==> !placement.pin_bindings@.contains_key(pin)
        }),
{
    let bel = placement.bindings@[graph.design.pins@[pin.0 as int].cell.0 as int];
    if placement.pin_bindings@.contains_key(pin) && bel.0 < graph.device.bels@.len()
        && constraints.pin_name_bindings@.contains_key(pin) {
        graph.lemma_first_match(
            graph.device.bels@[bel.0 as int].pins@,
            constraints.pin_name_bindings@[pin]@,
            graph.design.pins@[pin.0 as int].direction,
        );
    }
}

/// Two sets that hold a resource are two users of it.
proof fn lemma_two_users(sets: Seq<Set<int>>, i: int, j: int, resource: int)
    requires
        0 <= i < j < sets.len(),
        sets[i].contains(resource),
        sets[j].contains(resource),
    ensures
        users(sets, resource) >= 2,
    decreases sets.len(),
{
    if j < sets.len() - 1 {
        lemma_two_users(sets.drop_last(), i, j, resource);
    } else {
        crate::occupancy::lemma_users_positive(sets.drop_last(), i, resource);
    }
}

/// Nets that are routed do not share a wire that carries one net, nor a PIP that does.
pub proof fn routed_nets_do_not_share(
    graph: UnifiedGraph<'_>,
    placement: &Placement,
    constraints: &RoutingConstraints,
    routes: Seq<Arc<NetRoute>>,
    i: int,
    j: int,
    wire: WireId,
    pip: PipId,
)
    requires
        routes_serve(graph, placement, constraints, routes),
        0 <= i < j < routes.len(),
        wire.0 < graph.device.wires@.len(),
        pip.0 < graph.device.pips@.len(),
    ensures
        graph.device.wires@[wire.0 as int].capacity == 1 ==> !(routes[i].wire_refs@.contains_key(
            wire,
        ) && routes[j].wire_refs@.contains_key(wire)),
        graph.device.pips@[pip.0 as int].capacity == 1 ==> !(routes[i].pip_refs@.contains_key(pip)
            && routes[j].pip_refs@.contains_key(pip)),
{
    let slots = filled(routes);
    assert(slots[i] == Some(routes[i]));
    assert(slots[j] == Some(routes[j]));
    assert(wire_sets(slots)[i] == slot_wires(slots[i]));
    assert(wire_sets(slots)[j] == slot_wires(slots[j]));
    assert(pip_sets(slots)[i] == slot_pips(slots[i]));
    assert(pip_sets(slots)[j] == slot_pips(slots[j]));
    assert(within_capacity(graph.device, slots));
    if graph.device.wires@[wire.0 as int].capacity == 1 && routes[i].wire_refs@.contains_key(wire)
        && routes[j].wire_refs@.contains_key(wire) {
        assert(slot_wires(slots[i]).contains(wire.rank()));
        assert(slot_wires(slots[j]).contains(wire.rank()));
        lemma_two_users(wire_sets(slots), i, j, wire.0 as int);
    }
    if graph.device.pips@[pip.0 as int].capacity == 1 && routes[i].pip_refs@.contains_key(pip)
        && routes[j].pip_refs@.contains_key(pip) {
        assert(slot_pips(slots[i]).contains(pip.rank()));
        assert(slot_pips(slots[j]).contains(pip.rank()));
        lemma_two_users(pip_sets(slots), i, j, pip.0 as int);
    }
}

/// Every hop of a routed arc goes along its PIP in a direction that the PIP has, and
/// takes no forbidden PIP unless an immutable arc of the net takes the same hop.
pub proof fn every_hop_is_a_free_pip(
    graph: UnifiedGraph<'_>,
    placement: &Placement,
    constraints: &RoutingConstraints,
    routes: Seq<Arc<NetRoute>>,
    net: int,
    arc: int,
    hop: int,
)
    requires
        routes_serve(graph, placement, constraints, routes),
        0 <= net < routes.len(),
        routes.len() <= usize::MAX,
        0 <= arc < routes[net].arcs@.len(),
        0 <= hop < routes[net].arcs@[arc].pips@.len(),
    ensures
        ({
            let path = routes[net].arcs@[arc];
            let pip = path.pips@[hop];
            let from = path.wires@[hop];
            let to = path.wires@[hop + 1];
            let record = graph.device.pips@[pip.0 as int];
            &&& path.wires@.len() == path.pips@.len() + 1
            &&& pip.0 < graph.device.pips@.len()
            &&& (record.from == from && record.to == to) || (record.bidirectional && record.from
                == to && record.to == from)
            &&& constraints.blocked_pips@.contains(pip)
                ==> constraints.routes@.contains_key(NetId(net as usize)) && exists|a: int, i: int|
                #![trigger constraints.routes@[NetId(net as usize)].arcs@[a].pips@[i]]
                0 <= a < constraints.routes@[NetId(net as usize)].arcs@.len() && 0 <= i
                    < constraints.routes@[NetId(net as usize)].arcs@[a].pips@.len()
                    && constraints.routes@[NetId(net as usize)].arcs@[a].pips@[i] == pip
        }),
{
    let id = NetId(net as usize);
    let route = routes[net];
    assert(crate::net_state::serves_net(graph, placement, constraints, id, *route));
    let driver = crate::net_routing::driver_wire(graph, placement, id)->0;
    assert(crate::net_routing::arc_fits(graph, placement, id, driver, route.arcs@[arc]));
    let path = route.arcs@[arc];
    assert(graph.device.leads(path.wires@[hop], path.pips@[hop], path.wires@[hop + 1]));
    let locked = crate::net_state::locked_arcs(constraints, id);
    assert(route.arcs@[arc].pips@[hop] == path.pips@[hop]);
    if constraints.blocked_pips@.contains(path.pips@[hop]) {
        assert(crate::net_routing::takes_hop(
            locked,
            path.wires@[hop],
            path.pips@[hop],
            path.wires@[hop + 1],
        ));
        let (a, i) = choose|a: int, i: int|
            #![trigger locked[a].pips@[i]]
            0 <= a < locked.len() && 0 <= i < locked[a].pips@.len() && locked[a].pips@[i]
                == path.pips@[hop] && locked[a].wires@[i] == path.wires@[hop]
                && locked[a].wires@[i + 1] == path.wires@[hop + 1];
        assert(constraints.routes@[id].arcs@[a].pips@[i] == path.pips@[hop]);
    }
}

/// Every sink of a routed net has an arc that begins at the wire of the driver's pin and
/// ends at the wire of the sink's pin, and every immutable arc of the net is kept.
pub proof fn every_sink_is_reached(
    graph: UnifiedGraph<'_>,
    placement: &Placement,
    constraints: &RoutingConstraints,
    routes: Seq<Arc<NetRoute>>,
    net: int,
    sink: int,
) -> (arc: int)
    requires
        routes_serve(graph, placement, constraints, routes),
        0 <= net < routes.len(),
        routes.len() <= usize::MAX,
        0 <= sink < graph.design.nets@[net].sinks@.len(),
    ensures
        0 <= arc < routes[net].arcs@.len(),
        routes[net].arcs@[arc].sink == Some(graph.design.nets@[net].sinks@[sink]),
        crate::placement::pin_wire(graph, placement, graph.design.nets@[net].driver) == Some(
            routes[net].arcs@[arc].wires@[0],
        ),
        crate::placement::pin_wire(graph, placement, graph.design.nets@[net].sinks@[sink]) == Some(
            routes[net].arcs@[arc].wires@.last(),
        ),
        constraints.routes@.contains_key(NetId(net as usize)) ==> forall|f: int|
            0 <= f < constraints.routes@[NetId(net as usize)].arcs@.len() ==> crate::net_routing::holds_arc(
                routes[net].arcs@,
                #[trigger] constraints.routes@[NetId(net as usize)].arcs@[f],
            ),
{
    let id = NetId(net as usize);
    let route = routes[net];
    assert(crate::net_state::serves_net(graph, placement, constraints, id, *route));
    let pin = graph.design.nets@[net].sinks@[sink];
    assert(route.reaches(pin));
    let arc = choose|i: int|
        0 <= i < route.arcs@.len() && (#[trigger] route.arcs@[i]).sink == Some(pin);
    let driver = crate::net_routing::driver_wire(graph, placement, id)->0;
    assert(crate::net_routing::arc_fits(graph, placement, id, driver, route.arcs@[arc]));
    if constraints.routes@.contains_key(id) {
        let locked = crate::net_state::locked_arcs(constraints, id);
        assert forall|f: int|
            0 <= f < constraints.routes@[id].arcs@.len() implies crate::net_routing::holds_arc(
            route.arcs@,
            #[trigger] constraints.routes@[id].arcs@[f],
        ) by {
            assert(crate::net_routing::holds_arc(route.arcs@, locked[f]));
        }
    }
    arc
}

} // verus!
