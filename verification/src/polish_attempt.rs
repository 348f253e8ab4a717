//! One attempt to improve a connection of a legal routing.

use std::sync::Arc;

use vstd::prelude::*;

use crate::device::Device;
use crate::eco::{
    lemma_kept_fits, lemma_regrown_pip, lemma_regrown_wire, lemma_reroutes,
    lemma_stays_within_capacity, other_sinks, reopened, reroutes, siblings_kept,
};
use crate::eco_stage::{fails_in_room, grow_in_room, grows_in_room, regrown};
use crate::error::PnrError;
use crate::model::{CellPinId, Connection, PipId, WireId};
use crate::negotiate::within_capacity;
use crate::net_growth::NetRouter;
use crate::net_routing::{arc_fits, distinct_sinks, driver_wire, holds_arc};
use crate::net_state::{lemma_arcs_slot_fits, lemma_kept_resources};
use crate::occupancy::{
    indices, lemma_users_update, pip_sets, slot_pips, slot_wires, users, wire_sets, ResourceId,
    ResourceTable,
};
use crate::ordered::{OrderedKey, OrderedSet};
use crate::polish_queue::{first_arc_at, pips_to, Polisher};
use crate::retain::retained_route;
use crate::route::{NetRoute, RouteArc};
use crate::routing_costs::share;
use crate::search::{HardRoutingBlockers, MetResources};
use crate::slots::enters_full;
use crate::validation::route_fits;
use crate::workspace::{lemma_sets_update, slot_fits, slots_fit, RoutingWorkspace};

verus! {

/// One attempt: the connection, the full resources that its search met, and
/// the route that it found.
pub struct PolishEvent {
    /// Net and sink.
    pub connection: Connection,
    /// What the search met.
    pub blockers: HardRoutingBlockers,
    /// What the search found.
    pub outcome: Option<NetRoute>,
}

/// The tables count the slots, with the prices and the estimates of another state.
pub open spec fn is_priced_room(
    device: &Device,
    base: RoutingWorkspace,
    slots: Seq<Option<Arc<NetRoute>>>,
    room: RoutingWorkspace,
) -> bool {
    &&& room.fits(device)
    &&& room.wires.counts(wire_sets(slots))
    &&& room.pips.counts(pip_sets(slots))
    &&& room.wires.congestion@ == base.wires.congestion@
    &&& room.pips.congestion@ == base.pips.congestion@
    &&& room.search.same_estimates(&base.search)
}

/// Everything that was met has no room.
pub open spec fn all_full(room: RoutingWorkspace, blockers: HardRoutingBlockers) -> bool {
    &&& forall|w: WireId| #[trigger]
        blockers.wires@.contains(w) ==> w.0 < room.wires.occupancy@.len()
            && room.wires.occupancy@[w.0 as int] >= room.wires.capacities@[w.0 as int]
    &&& forall|p: PipId| #[trigger]
        blockers.pips@.contains(p) ==> p.0 < room.pips.occupancy@.len()
            && room.pips.occupancy@[p.0 as int] >= room.pips.capacities@[p.0 as int]
}

/// The wire was full and has room now.
pub open spec fn frees_wire(
    device: &Device,
    before: Seq<Option<Arc<NetRoute>>>,
    after: Seq<Option<Arc<NetRoute>>>,
    wire: WireId,
) -> bool {
    &&& wire.0 < device.wires@.len()
    &&& users(wire_sets(before), wire.0 as int) == device.wires@[wire.0 as int].capacity
    &&& users(wire_sets(after), wire.0 as int) < device.wires@[wire.0 as int].capacity
}

/// The PIP was full and has room now.
pub open spec fn frees_pip(
    device: &Device,
    before: Seq<Option<Arc<NetRoute>>>,
    after: Seq<Option<Arc<NetRoute>>>,
    pip: PipId,
) -> bool {
    &&& pip.0 < device.pips@.len()
    &&& users(pip_sets(before), pip.0 as int) == device.pips@[pip.0 as int].capacity
    &&& users(pip_sets(after), pip.0 as int) < device.pips@[pip.0 as int].capacity
}

impl<'a> Polisher<'a> {
    /// What searching for a new arc of the connection met and found, where
    /// every other arc stays.
    pub open spec fn is_search(
        &self,
        base: RoutingWorkspace,
        routes: Seq<Option<Arc<NetRoute>>>,
        event: PolishEvent,
    ) -> bool {
        let net = event.connection.net;
        exists|kept: Arc<NetRoute>, room: RoutingWorkspace|
            {
                &&& #[trigger] reopened(
                    self.graph,
                    *(routes[net.0 as int]->0),
                    event.connection.sink,
                    *kept,
                )
                &&& #[trigger] is_priced_room(
                    self.graph.device,
                    base,
                    routes.update(net.0 as int, Some(kept)),
                    room,
                )
                &&& all_full(room, event.blockers)
                &&& match event.outcome {
                    Some(route) => grows_in_room(
                        self.graph,
                        self.placement,
                        self.constraints,
                        self.costs,
                        room,
                        false,
                        net,
                        kept.arcs@,
                        route,
                        event.blockers.met(),
                    ),
                    None => self.is_hopeless(
                        room,
                        event.connection,
                        kept.arcs@,
                        event.blockers.met(),
                    ),
                }
            }
    }

    /// The room gives a reason not to route the net.
    pub open spec fn is_hopeless(
        &self,
        room: RoutingWorkspace,
        connection: Connection,
        fixed: Seq<RouteArc>,
        met: MetResources,
    ) -> bool {
        exists|error: PnrError| #[trigger]
            fails_in_room(
                self.graph,
                self.placement,
                self.constraints,
                self.costs,
                room,
                false,
                connection.net,
                fixed,
                error,
                met,
            )
    }

    /// The search found a route with a cheaper arc.
    pub open spec fn is_improvement(
        &self,
        routes: Seq<Option<Arc<NetRoute>>>,
        event: PolishEvent,
    ) -> bool {
        event.outcome matches Some(route) && self.realized(event.connection, route)
            < self.realized(event.connection, *(routes[event.connection.net.0 as int]->0))
    }

    /// The routes after the attempt: the cheaper route stands in its slot.
    pub open spec fn settles(
        &self,
        before: Seq<Option<Arc<NetRoute>>>,
        event: PolishEvent,
        after: Seq<Option<Arc<NetRoute>>>,
    ) -> bool {
        let net = event.connection.net.0 as int;
        if self.is_improvement(before, event) {
            &&& after == before.update(net, after[net])
            &&& after[net] matches Some(route) && *route == event.outcome->0
        } else {
            after == before
        }
    }

    /// The workspace counts the routes, with the prices and estimates of another state.
    pub open spec fn is_ready(
        &self,
        base: RoutingWorkspace,
        routes: Seq<Option<Arc<NetRoute>>>,
        workspace: RoutingWorkspace,
        overused_wires: &OrderedSet<usize>,
        overused_pips: &OrderedSet<usize>,
    ) -> bool {
        &&& workspace.wf()
        &&& !workspace.resident_valid
        &&& is_priced_room(self.graph.device, base, routes, workspace)
        &&& workspace.carries(routes, overused_wires, overused_pips)
        &&& slots_fit(routes, workspace.wire_count(), workspace.pip_count())
    }

    /// Another connection keeps its arc.
    pub open spec fn stays(
        &self,
        before: Seq<Option<Arc<NetRoute>>>,
        after: Seq<Option<Arc<NetRoute>>>,
        connection: Connection,
    ) -> bool {
        self.may_improve(connection, before) ==> self.may_improve(connection, after)
            && self.ranked(connection, after) == self.ranked(connection, before)
    }
}

/// The resources of an arc that are full.
fn list_full<K: ResourceId>(keys: &Vec<K>, table: &ResourceTable) -> (result: Vec<K>)
    requires
        table.wf(table.capacities@.len() as int),
        forall|i: int| 0 <= i < keys@.len() ==> (#[trigger] keys@[i]).rank() < table.capacities@.len(),
    ensures
        forall|k: K| #[trigger]
            result@.contains(k) <==> keys@.contains(k) && table.occupancy@[k.rank()]
                == table.capacities@[k.rank()],
{
    let mut result: Vec<K> = Vec::new();
    let mut index: usize = 0;
    while index < keys.len()
        invariant
            index <= keys@.len(),
            table.wf(table.capacities@.len() as int),
            forall|i: int|
                0 <= i < keys@.len() ==> (#[trigger] keys@[i]).rank() < table.capacities@.len(),
            forall|i: int|
                0 <= i < result@.len() ==> {
                    &&& keys@.contains(#[trigger] result@[i])
                    &&& table.occupancy@[result@[i].rank()] == table.capacities@[result@[i].rank()]
                },
            forall|i: int|
                0 <= i < index && table.occupancy@[(#[trigger] keys@[i]).rank()]
                    == table.capacities@[keys@[i].rank()] ==> result@.contains(keys@[i]),
        decreases keys@.len() - index,
    {
        let key = keys[index];
        let at: usize = key.index();
        assert(keys@[index as int].rank() < table.capacities@.len());
        let ghost before = result@;
        if table.occupancy[at] == table.capacities[at] {
            result.push(key);
            proof {
                assert(result@[before.len() as int] == key);
                assert forall|i: int|
                    0 <= i < index && table.occupancy@[(#[trigger] keys@[i]).rank()]
                        == table.capacities@[keys@[i].rank()] implies result@.contains(
                    keys@[i],
                ) by {
                    let j = before.index_of(keys@[i]);
                    assert(result@[j] == keys@[i]);
                }
            }
        }
        index = index + 1;
    }
    proof {
        assert forall|k: K| #[trigger] result@.contains(k) <==> keys@.contains(k)
            && table.occupancy@[k.rank()] == table.capacities@[k.rank()] by {
            if result@.contains(k) {
                let j = result@.index_of(k);
                assert(keys@.contains(result@[j]));
            }
            if keys@.contains(k) {
                let j = keys@.index_of(k);
                assert(keys@[j] == k);
            }
        }
    }
    result
}

/// The resources of a list that have room.
fn list_roomy<K: ResourceId>(keys: &Vec<K>, table: &ResourceTable) -> (result: Vec<K>)
    requires
        table.wf(table.capacities@.len() as int),
        forall|k: K| #[trigger] keys@.contains(k) ==> k.rank() < table.capacities@.len(),
    ensures
        forall|k: K| #[trigger]
            result@.contains(k) <==> keys@.contains(k) && table.occupancy@[k.rank()]
                < table.capacities@[k.rank()],
{
    let mut result: Vec<K> = Vec::new();
    let mut index: usize = 0;
    while index < keys.len()
        invariant
            index <= keys@.len(),
            table.wf(table.capacities@.len() as int),
            forall|k: K| #[trigger] keys@.contains(k) ==> k.rank() < table.capacities@.len(),
            forall|i: int|
                0 <= i < result@.len() ==> {
                    &&& keys@.contains(#[trigger] result@[i])
                    &&& table.occupancy@[result@[i].rank()] < table.capacities@[result@[i].rank()]
                },
            forall|i: int|
                0 <= i < index && table.occupancy@[(#[trigger] keys@[i]).rank()]
                    < table.capacities@[keys@[i].rank()] ==> result@.contains(keys@[i]),
        decreases keys@.len() - index,
    {
        let key = keys[index];
        let at: usize = key.index();
        assert(keys@.contains(keys@[index as int]));
        let ghost before = result@;
        if table.occupancy[at] < table.capacities[at] {
            result.push(key);
            proof {
                assert(result@[before.len() as int] == key);
                assert forall|i: int|
                    0 <= i < index && table.occupancy@[(#[trigger] keys@[i]).rank()]
                        < table.capacities@[keys@[i].rank()] implies result@.contains(keys@[i]) by {
                    let j = before.index_of(keys@[i]);
                    assert(result@[j] == keys@[i]);
                }
            }
        }
        index = index + 1;
    }
    proof {
        assert forall|k: K| #[trigger] result@.contains(k) <==> keys@.contains(k)
            && table.occupancy@[k.rank()] < table.capacities@[k.rank()] by {
            if result@.contains(k) {
                let j = result@.index_of(k);
                assert(keys@.contains(result@[j]));
            }
            if keys@.contains(k) {
                let j = keys@.index_of(k);
                assert(keys@[j] == k);
            }
        }
    }
    result
}

/// The arc of a sibling is the same in both routes.
proof fn lemma_sibling_pips(
    earlier: NetRoute,
    route: NetRoute,
    selected: CellPinId,
    sink: CellPinId,
)
    requires
        distinct_sinks(earlier.arcs@),
        distinct_sinks(route.arcs@),
        siblings_kept(earlier.arcs@, selected, route.arcs@),
        earlier.reaches(sink),
        sink != selected,
    ensures
        route.reaches(sink),
        pips_to(route, sink) == pips_to(earlier, sink),
{
    let i = choose|i: int|
        0 <= i < earlier.arcs@.len() && (#[trigger] earlier.arcs@[i]).sink == Some(sink);
    assert(first_arc_at(earlier, sink, i)) by {
        assert forall|j: int| 0 <= j < i implies (#[trigger] earlier.arcs@[j]).sink != Some(
            sink,
        ) by {
            if earlier.arcs@[j].sink == Some(sink) {
                assert(earlier.arcs@[j].sink != earlier.arcs@[i].sink);
            }
        }
    }
    let a = choose|at: int| first_arc_at(earlier, sink, at);
    assert(first_arc_at(earlier, sink, a));
    assert(a == i);
    assert(holds_arc(route.arcs@, earlier.arcs@[i]));
    let k = choose|k: int|
        0 <= k < route.arcs@.len() && (#[trigger] route.arcs@[k]).same(&earlier.arcs@[i]);
    assert(first_arc_at(route, sink, k)) by {
        assert forall|j: int| 0 <= j < k implies (#[trigger] route.arcs@[j]).sink != Some(
            sink,
        ) by {
            if route.arcs@[j].sink == Some(sink) {
                assert(route.arcs@[j].sink != route.arcs@[k].sink);
            }
        }
    }
    let b = choose|at: int| first_arc_at(route, sink, at);
    assert(first_arc_at(route, sink, b));
    assert(b == k);
}

/// A resource that the exchange leaves was one of the selected arc.
proof fn lemma_left_wire(earlier: NetRoute, route: NetRoute, sink: CellPinId, at: int, wire: WireId)
    requires
        earlier.is_fresh(),
        route.is_fresh(),
        distinct_sinks(earlier.arcs@),
        siblings_kept(earlier.arcs@, sink, route.arcs@),
        first_arc_at(earlier, sink, at),
        earlier.has_wire(wire),
        !route.has_wire(wire),
    ensures
        earlier.arcs@[at].wires@.contains(wire),
{
    earlier.lemma_resources();
    route.lemma_resources();
    let i = choose|i: int|
        0 <= i < earlier.arcs@.len() && (#[trigger] earlier.arcs@[i]).wires@.contains(wire);
    if earlier.arcs@[i].sink != Some(sink) {
        assert(holds_arc(route.arcs@, earlier.arcs@[i]));
        let k = choose|k: int|
            0 <= k < route.arcs@.len() && (#[trigger] route.arcs@[k]).same(&earlier.arcs@[i]);
        assert(route.arcs@[k].wires@.contains(wire));
    } else if i != at {
        assert(earlier.arcs@[at].sink != earlier.arcs@[i].sink);
    }
}

/// A PIP that the exchange leaves was one of the selected arc.
proof fn lemma_left_pip(earlier: NetRoute, route: NetRoute, sink: CellPinId, at: int, pip: PipId)
    requires
        earlier.is_fresh(),
        route.is_fresh(),
        distinct_sinks(earlier.arcs@),
        siblings_kept(earlier.arcs@, sink, route.arcs@),
        first_arc_at(earlier, sink, at),
        earlier.has_pip(pip),
        !route.has_pip(pip),
    ensures
        earlier.arcs@[at].pips@.contains(pip),
{
    earlier.lemma_resources();
    route.lemma_resources();
    let i = choose|i: int|
        0 <= i < earlier.arcs@.len() && (#[trigger] earlier.arcs@[i]).pips@.contains(pip);
    if earlier.arcs@[i].sink != Some(sink) {
        assert(holds_arc(route.arcs@, earlier.arcs@[i]));
        let k = choose|k: int|
            0 <= k < route.arcs@.len() && (#[trigger] route.arcs@[k]).same(&earlier.arcs@[i]);
        assert(route.arcs@[k].pips@.contains(pip));
    } else if i != at {
        assert(earlier.arcs@[at].sink != earlier.arcs@[i].sink);
    }
}

/// The routes after an exchange free nothing but resources of the selected arc.
proof fn lemma_freed_on_arc(
    device: &Device,
    slots: Seq<Option<Arc<NetRoute>>>,
    index: int,
    earlier: Arc<NetRoute>,
    route: Arc<NetRoute>,
    sink: CellPinId,
    at: int,
)
    requires
        0 <= index < slots.len(),
        slots[index] == Some(earlier),
        earlier.is_fresh(),
        route.is_fresh(),
        distinct_sinks(earlier.arcs@),
        siblings_kept(earlier.arcs@, sink, route.arcs@),
        first_arc_at(*earlier, sink, at),
    ensures
        forall|w: WireId| #[trigger]
            frees_wire(device, slots, slots.update(index, Some(route)), w)
                ==> earlier.arcs@[at].wires@.contains(w),
        forall|p: PipId| #[trigger]
            frees_pip(device, slots, slots.update(index, Some(route)), p)
                ==> earlier.arcs@[at].pips@.contains(p),
{
    let after = slots.update(index, Some(route));
    lemma_sets_update(slots, index, Some(route));
    assert forall|w: WireId| #[trigger] frees_wire(device, slots, after, w) implies earlier.arcs@[
    at].wires@.contains(w) by {
        let r = w.0 as int;
        lemma_users_update(wire_sets(slots), index, slot_wires(Some(route)), r);
        assert(wire_sets(slots)[index] == slot_wires(Some(earlier)));
        assert(indices(earlier.wire_refs).contains(r));
        assert(!indices(route.wire_refs).contains(r));
        let k = choose|k: WireId| #[trigger] earlier.wire_refs@.contains_key(k) && k.rank() == r;
        assert(k == w);
        if route.wire_refs@.contains_key(w) {
            assert(w.rank() == r);
        }
        lemma_left_wire(*earlier, *route, sink, at, w);
    }
    assert forall|p: PipId| #[trigger] frees_pip(device, slots, after, p) implies earlier.arcs@[
    at].pips@.contains(p) by {
        let r = p.0 as int;
        lemma_users_update(pip_sets(slots), index, slot_pips(Some(route)), r);
        assert(pip_sets(slots)[index] == slot_pips(Some(earlier)));
        assert(indices(earlier.pip_refs).contains(r));
        assert(!indices(route.pip_refs).contains(r));
        let k = choose|k: PipId| #[trigger] earlier.pip_refs@.contains_key(k) && k.rank() == r;
        assert(k == p);
        if route.pip_refs@.contains_key(p) {
            assert(p.rank() == r);
        }
        lemma_left_pip(*earlier, *route, sink, at, p);
    }
}

/// Putting the earlier route back enters no full counter.
proof fn lemma_return_fits(
    slots: Seq<Option<Arc<NetRoute>>>,
    index: int,
    earlier: Arc<NetRoute>,
    kept: Arc<NetRoute>,
    workspace: RoutingWorkspace,
)
    requires
        0 <= index < slots.len(),
        slots[index] == Some(earlier),
        workspace.wires.counts(wire_sets(slots)),
        workspace.pips.counts(pip_sets(slots)),
        slot_fits(
            Some(earlier),
            workspace.wires.occupancy@.len() as int,
            workspace.pips.occupancy@.len() as int,
        ),
    ensures
        !enters_full(slots.update(index, Some(kept)), index, Some(earlier)),
{
    let lower = slots.update(index, Some(kept));
    lemma_sets_update(slots, index, Some(kept));
    assert forall|r: int| #[trigger] slot_wires(Some(earlier)).contains(r) && !slot_wires(
        lower[index],
    ).contains(r) implies users(wire_sets(lower), r) < u16::MAX by {
        lemma_users_update(wire_sets(slots), index, slot_wires(Some(kept)), r);
        assert(wire_sets(slots)[index] == slot_wires(Some(earlier)));
        assert(workspace.wires.occupancy@[r] == users(wire_sets(slots), r));
    }
    assert forall|r: int| #[trigger] slot_pips(Some(earlier)).contains(r) && !slot_pips(
        lower[index],
    ).contains(r) implies users(pip_sets(lower), r) < u16::MAX by {
        lemma_users_update(pip_sets(slots), index, slot_pips(Some(kept)), r);
        assert(pip_sets(slots)[index] == slot_pips(Some(earlier)));
        assert(workspace.pips.occupancy@[r] == users(pip_sets(slots), r));
    }
}

impl<'a> Polisher<'a> {
    /// Putting the regrown route in enters no full counter.
    proof fn lemma_entry_fits(
        &self,
        slots: Seq<Option<Arc<NetRoute>>>,
        connection: Connection,
        earlier: Arc<NetRoute>,
        kept: Arc<NetRoute>,
        route: Arc<NetRoute>,
        workspace: RoutingWorkspace,
        room: RoutingWorkspace,
    )
        requires
            self.wf(),
            connection.net.0 < slots.len(),
            slots[connection.net.0 as int] == Some(earlier),
            workspace.wires.counts(wire_sets(slots)),
            workspace.pips.counts(pip_sets(slots)),
            slot_fits(
                Some(earlier),
                workspace.wires.occupancy@.len() as int,
                workspace.pips.occupancy@.len() as int,
            ),
            room.wires.counts(wire_sets(slots.update(connection.net.0 as int, Some(kept)))),
            room.pips.counts(pip_sets(slots.update(connection.net.0 as int, Some(kept)))),
            slot_fits(
                Some(route),
                room.wires.occupancy@.len() as int,
                room.pips.occupancy@.len() as int,
            ),
            kept.is_fresh(),
            crate::net_routing::arcs_fit(
                self.graph,
                self.placement,
                connection.net,
                driver_wire(self.graph, self.placement, connection.net)->0,
                kept.arcs@,
            ),
            earlier.has_wire(driver_wire(self.graph, self.placement, connection.net)->0),
            regrown(
                self.graph,
                self.placement,
                self.constraints,
                room,
                connection.net,
                kept.arcs@,
                *route,
            ),
        ensures
            !enters_full(
                slots.update(connection.net.0 as int, Some(kept)),
                connection.net.0 as int,
                Some(route),
            ),
    {
        let index = connection.net.0 as int;
        let lower = slots.update(index, Some(kept));
        let driver = driver_wire(self.graph, self.placement, connection.net)->0;
        lemma_return_fits(slots, index, earlier, kept, workspace);
        assert forall|r: int| #[trigger] slot_wires(Some(route)).contains(r) && !slot_wires(
            lower[index],
        ).contains(r) implies users(wire_sets(lower), r) < u16::MAX by {
            assert(room.wires.occupancy@[r] == users(wire_sets(lower), r));
            let wire = choose|k: WireId| #[trigger]
                route.wire_refs@.contains_key(k) && k.rank() == r;
            assert(route.has_wire(wire));
            if kept.wire_refs@.contains_key(wire) {
                assert(indices(kept.wire_refs).contains(r));
            }
            if wire == driver {
                assert(earlier.wire_refs@.contains_key(wire));
                assert(slot_wires(Some(earlier)).contains(r));
            } else {
                lemma_regrown_wire(
                    self.graph,
                    self.placement,
                    self.constraints,
                    room,
                    connection.net,
                    *kept,
                    *route,
                    wire,
                );
            }
        }
        assert forall|r: int| #[trigger] slot_pips(Some(route)).contains(r) && !slot_pips(
            lower[index],
        ).contains(r) implies users(pip_sets(lower), r) < u16::MAX by {
            assert(room.pips.occupancy@[r] == users(pip_sets(lower), r));
            let pip = choose|k: PipId| #[trigger]
                route.pip_refs@.contains_key(k) && k.rank() == r;
            assert(route.has_pip(pip));
            if kept.pip_refs@.contains_key(pip) {
                assert(indices(kept.pip_refs).contains(r));
            }
            lemma_regrown_pip(
                self.graph,
                self.placement,
                self.constraints,
                room,
                connection.net,
                *kept,
                *route,
                pip,
            );
        }
    }

    /// Every other connection keeps its arc, and the selected one stays routed.
    proof fn lemma_others_stay(
        &self,
        slots: Seq<Option<Arc<NetRoute>>>,
        connection: Connection,
        earlier: Arc<NetRoute>,
        route: Arc<NetRoute>,
    )
        requires
            connection.net.0 < slots.len(),
            slots[connection.net.0 as int] == Some(earlier),
            distinct_sinks(earlier.arcs@),
            distinct_sinks(route.arcs@),
            siblings_kept(earlier.arcs@, connection.sink, route.arcs@),
            route.reaches(connection.sink),
        ensures
            forall|c: Connection|
                c != connection ==> #[trigger] self.stays(
                    slots,
                    slots.update(connection.net.0 as int, Some(route)),
                    c,
                ),
            self.may_improve(connection, slots) ==> self.may_improve(
                connection,
                slots.update(connection.net.0 as int, Some(route)),
            ),
    {
        let after = slots.update(connection.net.0 as int, Some(route));
        assert forall|c: Connection| c != connection implies #[trigger] self.stays(
            slots,
            after,
            c,
        ) by {
            if c.net == connection.net {
                if earlier.reaches(c.sink) {
                    lemma_sibling_pips(*earlier, *route, connection.sink, c.sink);
                }
            } else {
                assert(c.net.0 != connection.net.0);
            }
        }
    }
}

/// What one attempt gave.
pub struct PolishAttempt {
    /// The full resources that the search met.
    pub blockers: HardRoutingBlockers,
    /// By how much the arc became cheaper.
    pub reduction: Option<u64>,
    /// The full wires that have room now.
    pub wires: Vec<WireId>,
    /// The full PIPs that have room now.
    pub pips: Vec<PipId>,
    /// The route that the search found.
    pub outcome: Ghost<Option<NetRoute>>,
}

impl PolishAttempt {
    /// The attempt as an event.
    pub open spec fn event(&self, connection: Connection) -> PolishEvent {
        PolishEvent { connection, blockers: self.blockers, outcome: self.outcome@ }
    }
}

impl<'a> Polisher<'a> {
    /// What the exchange of one route leaves, and what has room by it.
    pub open spec fn is_exchange(
        &self,
        before: Seq<Option<Arc<NetRoute>>>,
        connection: Connection,
        wires: Seq<WireId>,
        pips: Seq<PipId>,
        after: Seq<Option<Arc<NetRoute>>>,
    ) -> bool {
        &&& forall|w: WireId| #[trigger]
            wires.contains(w) <==> frees_wire(self.graph.device, before, after, w)
        &&& forall|p: PipId| #[trigger]
            pips.contains(p) <==> frees_pip(self.graph.device, before, after, p)
        &&& self.slots_ok(after)
        &&& self.may_improve(connection, after)
        &&& forall|c: Connection| c != connection ==> #[trigger] self.stays(before, after, c)
        &&& within_capacity(self.graph.device, before) ==> within_capacity(
            self.graph.device,
            after,
        )
    }

    /// What an attempt leaves: the routes, and what it reports of them.
    pub open spec fn is_attempt(
        &self,
        base: RoutingWorkspace,
        before: Seq<Option<Arc<NetRoute>>>,
        connection: Connection,
        attempt: PolishAttempt,
        after: Seq<Option<Arc<NetRoute>>>,
    ) -> bool {
        let event = attempt.event(connection);
        let net = connection.net.0 as int;
        &&& attempt.blockers.wf()
        &&& self.is_search(base, before, event)
        &&& self.settles(before, event, after)
        &&& attempt.reduction is Some <==> self.is_improvement(before, event)
        &&& attempt.reduction matches Some(reduction) ==> reduction == self.realized(
            connection,
            *(before[net]->0),
        ) - self.realized(connection, *(after[net]->0))
        &&& self.is_exchange(before, connection, attempt.wires@, attempt.pips@, after)
    }

    /// The arc of the connection, in the one route of its net.
    spec fn has_arc_at(
        &self,
        slots: Seq<Option<Arc<NetRoute>>>,
        connection: Connection,
        earlier: Arc<NetRoute>,
        at: int,
    ) -> bool {
        &&& self.slots_ok(slots)
        &&& connection.net.0 < slots.len()
        &&& slots[connection.net.0 as int] == Some(earlier)
        &&& route_fits(
            self.graph,
            self.placement,
            self.constraints,
            connection.net,
            *earlier,
        )
        &&& first_arc_at(*earlier, connection.sink, at)
        &&& self.may_improve(connection, slots)
        &&& earlier.has_wire(driver_wire(self.graph, self.placement, connection.net)->0)
    }

    /// The lists hold the full resources of the arc.
    spec fn lists_full(
        &self,
        earlier: Arc<NetRoute>,
        at: int,
        workspace: RoutingWorkspace,
        wires: Seq<WireId>,
        pips: Seq<PipId>,
    ) -> bool {
        &&& forall|w: WireId| #[trigger]
            wires.contains(w) <==> earlier.arcs@[at].wires@.contains(w)
                && workspace.wires.occupancy@[w.0 as int] == workspace.wires.capacities@[w.0 as int]
        &&& forall|p: PipId| #[trigger]
            pips.contains(p) <==> earlier.arcs@[at].pips@.contains(p)
                && workspace.pips.occupancy@[p.0 as int] == workspace.pips.capacities@[p.0 as int]
    }

    /// The resources of an arc are on the device.
    proof fn lemma_arc_range(
        &self,
        slots: Seq<Option<Arc<NetRoute>>>,
        connection: Connection,
        earlier: Arc<NetRoute>,
        at: int,
    )
        requires
            self.wf(),
            self.has_arc_at(slots, connection, earlier, at),
        ensures
            forall|w: WireId| #[trigger]
                earlier.arcs@[at].wires@.contains(w) ==> w.0 < self.graph.device.wires@.len(),
            forall|p: PipId| #[trigger]
                earlier.arcs@[at].pips@.contains(p) ==> p.0 < self.graph.device.pips@.len(),
    {
        lemma_arcs_slot_fits(self.graph, self.placement, connection.net, earlier);
        earlier.lemma_resources();
        assert forall|w: WireId| #[trigger] earlier.arcs@[at].wires@.contains(w) implies w.0
            < self.graph.device.wires@.len() by {
            assert(earlier.has_wire(w));
            assert(earlier.wire_refs@.contains_key(w));
            assert(slot_wires(Some(earlier)).contains(w.rank()));
        }
        assert forall|p: PipId| #[trigger] earlier.arcs@[at].pips@.contains(p) implies p.0
            < self.graph.device.pips@.len() by {
            assert(earlier.has_pip(p));
            assert(earlier.pip_refs@.contains_key(p));
            assert(slot_pips(Some(earlier)).contains(p.rank()));
        }
    }

    /// The full resources of the arc of a connection.
    fn full_on_arc(
        &self,
        connection: Connection,
        earlier: &Arc<NetRoute>,
        workspace: &RoutingWorkspace,
        Ghost(slots): Ghost<Seq<Option<Arc<NetRoute>>>>,
        Ghost(at): Ghost<int>,
    ) -> (result: (Vec<WireId>, Vec<PipId>))
        requires
            self.wf(),
            self.has_arc_at(slots, connection, *earlier, at),
            workspace.wf(),
            workspace.fits(self.graph.device),
        ensures
            self.lists_full(*earlier, at, *workspace, result.0@, result.1@),
    {
        match earlier.arc(connection.sink) {
            None => (Vec::new(), Vec::new()),
            Some(arc) => {
                proof {
                    let i = choose|i: int|
                        0 <= i < earlier.arcs@.len() && #[trigger] earlier.arcs@[i] == *arc
                            && arc.sink == Some(connection.sink) && forall|j: int|
                            0 <= j < i ==> (#[trigger] earlier.arcs@[j]).sink != Some(
                                connection.sink,
                            );
                    assert(first_arc_at(**earlier, connection.sink, i));
                    assert(at == i);
                    self.lemma_arc_range(slots, connection, *earlier, at);
                    assert forall|k: int| 0 <= k < arc.wires@.len() implies (
                    #[trigger] arc.wires@[k]).rank() < workspace.wires.capacities@.len() by {
                        assert(earlier.arcs@[at].wires@.contains(arc.wires@[k]));
                    }
                    assert forall|k: int| 0 <= k < arc.pips@.len() implies (
                    #[trigger] arc.pips@[k]).rank() < workspace.pips.capacities@.len() by {
                        assert(earlier.arcs@[at].pips@.contains(arc.pips@[k]));
                    }
                }
                let wires = list_full(&arc.wires, &workspace.wires);
                let pips = list_full(&arc.pips, &workspace.pips);
                proof {
                    assert forall|w: WireId| #[trigger] wires@.contains(w) <==> earlier.arcs@[
                    at].wires@.contains(w) && workspace.wires.occupancy@[w.0 as int]
                        == workspace.wires.capacities@[w.0 as int] by {
                        assert(w.rank() == w.0);
                    }
                    assert forall|p: PipId| #[trigger] pips@.contains(p) <==> earlier.arcs@[
                    at].pips@.contains(p) && workspace.pips.occupancy@[p.0 as int]
                        == workspace.pips.capacities@[p.0 as int] by {
                        assert(p.rank() == p.0);
                    }
                }
                (wires, pips)
            },
        }
    }

    /// Keeps the cheaper route, and lists what has room by it.
    fn accept(
        &self,
        connection: Connection,
        earlier: &Arc<NetRoute>,
        kept: &Arc<NetRoute>,
        route: NetRoute,
        full_wires: &Vec<WireId>,
        full_pips: &Vec<PipId>,
        routes: &mut Vec<Option<Arc<NetRoute>>>,
        workspace: &mut RoutingWorkspace,
        overused_wires: &mut OrderedSet<usize>,
        overused_pips: &mut OrderedSet<usize>,
        Ghost(base): Ghost<RoutingWorkspace>,
        Ghost(start): Ghost<RoutingWorkspace>,
        Ghost(room): Ghost<RoutingWorkspace>,
        Ghost(at): Ghost<int>,
    ) -> (result: (Vec<WireId>, Vec<PipId>))
        requires
            self.wf(),
            self.has_arc_at(old(routes)@, connection, *earlier, at),
            is_priced_room(self.graph.device, base, old(routes)@, start),
            start.wf(),
            self.lists_full(*earlier, at, start, full_wires@, full_pips@),
            kept.is_fresh(),
            crate::net_routing::arcs_fit(
                self.graph,
                self.placement,
                connection.net,
                driver_wire(self.graph, self.placement, connection.net)->0,
                kept.arcs@,
            ),
            indices(kept.wire_refs).subset_of(indices(earlier.wire_refs)),
            indices(kept.pip_refs).subset_of(indices(earlier.pip_refs)),
            room.wf(),
            is_priced_room(
                self.graph.device,
                base,
                old(routes)@.update(connection.net.0 as int, Some(*kept)),
                room,
            ),
            regrown(
                self.graph,
                self.placement,
                self.constraints,
                room,
                connection.net,
                kept.arcs@,
                route,
            ),
            reroutes(
                self.graph,
                self.placement,
                self.constraints,
                **earlier,
                connection.sink,
                route,
            ),
            route.reaches(connection.sink),
            self.is_ready(
                base,
                old(routes)@.update(connection.net.0 as int, Some(*kept)),
                *old(workspace),
                old(overused_wires),
                old(overused_pips),
            ),
            slots_fit(
                old(routes)@,
                old(workspace).wire_count(),
                old(workspace).pip_count(),
            ),
        ensures
            self.is_exchange(old(routes)@, connection, result.0@, result.1@, final(routes)@),
            final(routes)@ == old(routes)@.update(
                connection.net.0 as int,
                final(routes)@[connection.net.0 as int],
            ),
            final(routes)@[connection.net.0 as int] matches Some(shared) && *shared == route,
            self.is_ready(
                base,
                final(routes)@,
                *final(workspace),
                final(overused_wires),
                final(overused_pips),
            ),
    {
        let net = connection.net;
        let ghost index = net.0 as int;
        let ghost slots = routes@;
        let ghost lower = slots.update(index, Some(*kept));
        let shared = Arc::new(route);
        proof {
            lemma_arcs_slot_fits(self.graph, self.placement, net, shared);
            assert(slot_fits(lower[index], workspace.wire_count(), workspace.pip_count()));
            assert(slot_fits(slots[index], workspace.wire_count(), workspace.pip_count()));
            self.lemma_entry_fits(slots, connection, *earlier, *kept, shared, start, room);
        }
        let kept_slot = Some(share(kept));
        let later_slot = Some(share(&shared));
        let _ = workspace.swap_slot(
            &kept_slot,
            &later_slot,
            overused_wires,
            overused_pips,
            Ghost(lower),
            Ghost(index),
        );
        routes.set(net.0, Some(shared));
        let ghost after = slots.update(index, Some(shared));
        proof {
            assert(lower.update(index, Some(shared)) =~= after);
            assert(routes@ =~= after);
            self.lemma_arc_range(slots, connection, *earlier, at);
        }
        let wires = list_roomy(full_wires, &workspace.wires);
        let pips = list_roomy(full_pips, &workspace.pips);
        proof {
            lemma_freed_on_arc(
                self.graph.device,
                slots,
                index,
                *earlier,
                shared,
                connection.sink,
                at,
            );
            self.lemma_others_stay(slots, connection, *earlier, shared);
            if within_capacity(self.graph.device, slots) {
                lemma_stays_within_capacity(
                    self.graph,
                    self.placement,
                    self.constraints,
                    room,
                    slots,
                    net,
                    *earlier,
                    *kept,
                    shared,
                );
            }
            assert forall|w: WireId| #[trigger] wires@.contains(w) <==> frees_wire(
                self.graph.device,
                slots,
                after,
                w,
            ) by {
                assert(w.rank() == w.0);
                if earlier.arcs@[at].wires@.contains(w) {
                    assert(start.wires.occupancy@[w.0 as int] == users(
                        wire_sets(slots),
                        w.0 as int,
                    ));
                    assert(workspace.wires.occupancy@[w.0 as int] == users(
                        wire_sets(after),
                        w.0 as int,
                    ));
                }
                assert(wires@.contains(w) <==> full_wires@.contains(w)
                    && workspace.wires.occupancy@[w.rank()]
                    < workspace.wires.capacities@[w.rank()]);
            }
            assert forall|p: PipId| #[trigger] pips@.contains(p) <==> frees_pip(
                self.graph.device,
                slots,
                after,
                p,
            ) by {
                assert(p.rank() == p.0);
                if earlier.arcs@[at].pips@.contains(p) {
                    assert(start.pips.occupancy@[p.0 as int] == users(
                        pip_sets(slots),
                        p.0 as int,
                    ));
                    assert(workspace.pips.occupancy@[p.0 as int] == users(
                        pip_sets(after),
                        p.0 as int,
                    ));
                }
                assert(pips@.contains(p) <==> full_pips@.contains(p)
                    && workspace.pips.occupancy@[p.rank()]
                    < workspace.pips.capacities@[p.rank()]);
            }
            assert forall|i: int| 0 <= i < after.len() implies self.slot_ok(
                i,
                #[trigger] after[i],
            ) by {
                if i != index {
                    assert(self.slot_ok(i, slots[i]));
                }
            }
            assert forall|i: int| 0 <= i < after.len() implies slot_fits(
                #[trigger] after[i],
                workspace.wire_count(),
                workspace.pip_count(),
            ) by {
                if i != index {
                    assert(slot_fits(slots[i], workspace.wire_count(), workspace.pip_count()));
                }
            }
        }
        (wires, pips)
    }

    /// Without an exchange nothing has room that had none.
    proof fn lemma_no_exchange(
        &self,
        slots: Seq<Option<Arc<NetRoute>>>,
        connection: Connection,
    )
        requires
            self.slots_ok(slots),
            self.may_improve(connection, slots),
        ensures
            self.is_exchange(slots, connection, Seq::empty(), Seq::empty(), slots),
    {
    }

    /// Searches for a cheaper arc of the connection among the immovable others,
    /// and keeps it where there is one.
    pub(crate) fn attempt(
        &self,
        connection: Connection,
        routes: &mut Vec<Option<Arc<NetRoute>>>,
        workspace: &mut RoutingWorkspace,
        overused_wires: &mut OrderedSet<usize>,
        overused_pips: &mut OrderedSet<usize>,
        Ghost(base): Ghost<RoutingWorkspace>,
    ) -> (result: PolishAttempt)
        requires
            self.wf(),
            self.slots_ok(old(routes)@),
            self.may_improve(connection, old(routes)@),
            self.is_ready(
                base,
                old(routes)@,
                *old(workspace),
                old(overused_wires),
                old(overused_pips),
            ),
        ensures
            self.is_attempt(base, old(routes)@, connection, result, final(routes)@),
            self.is_ready(
                base,
                final(routes)@,
                *final(workspace),
                final(overused_wires),
                final(overused_pips),
            ),
    {
        let net = connection.net;
        let ghost index = net.0 as int;
        let ghost slots = routes@;
        let ghost start = *workspace;
        let graph = self.graph;
        let earlier: Arc<NetRoute> = match &routes[net.0] {
            Some(route) => share(route),
            None => {
                return PolishAttempt {
                    blockers: HardRoutingBlockers::new(),
                    reduction: None,
                    wires: Vec::new(),
                    pips: Vec::new(),
                    outcome: Ghost(None),
                };
            },
        };
        let ghost at = choose|at: int| first_arc_at(*earlier, connection.sink, at);
        proof {
            assert(slots[index] == Some(earlier));
            assert(self.slot_ok(index, slots[index]));
            assert(slot_fits(slots[index], workspace.wire_count(), workspace.pip_count()));
            self.lemma_selected_arc(slots, connection, earlier);
        }
        let others = other_sinks(&graph.design().nets[net.0].sinks, connection.sink);
        let kept = Arc::new(retained_route(&earlier, &others));
        proof {
            lemma_kept_fits(
                self.graph,
                self.placement,
                self.constraints,
                &*earlier,
                others@,
                connection.sink,
                &*kept,
            );
            lemma_kept_resources(&*kept, &*earlier);
            lemma_arcs_slot_fits(self.graph, self.placement, net, kept);
            let others_spec = Set::new(
                |s: CellPinId|
                    self.graph.design.nets@[earlier.net.0 as int].sinks@.contains(s) && s
                        != connection.sink,
            );
            assert(others@ =~= others_spec);
            assert(reopened(self.graph, *earlier, connection.sink, *kept));
        }
        let full = self.full_on_arc(connection, &earlier, workspace, Ghost(slots), Ghost(at));
        let earlier_slot = Some(share(&earlier));
        let kept_slot = Some(share(&kept));
        let _ = workspace.swap_slot(
            &earlier_slot,
            &kept_slot,
            overused_wires,
            overused_pips,
            Ghost(slots),
            Ghost(index),
        );
        let ghost lower = slots.update(index, Some(kept));
        let ghost room = *workspace;
        proof {
            assert(is_priced_room(self.graph.device, base, lower, room));
            assert forall|i: int| 0 <= i < lower.len() implies slot_fits(
                #[trigger] lower[i],
                workspace.wire_count(),
                workspace.pip_count(),
            ) by {
                if i != index {
                    assert(slot_fits(slots[i], workspace.wire_count(), workspace.pip_count()));
                }
            }
        }
        let mut blockers = HardRoutingBlockers::new();
        let outcome = grow_in_room(
            &graph,
            self.placement,
            self.pin_wires,
            self.constraints,
            self.costs,
            false,
            net,
            Some(&*kept),
            workspace,
            &mut blockers,
        );
        proof {
            assert(NetRouter::fixed_arcs(Some(&*kept)) == kept.arcs@);
            assert(all_full(room, blockers));
            lemma_return_fits(slots, index, earlier, kept, start);
            self.lemma_no_exchange(slots, connection);
            assert(self.is_ready(base, lower, *workspace, overused_wires, overused_pips));
        }
        let earlier_cost: Option<u64> = self.price(connection, &earlier);
        let mut found: Ghost<Option<NetRoute>> = Ghost(None);
        match outcome {
            Ok(route) => {
                proof {
                    found@ = Some(route);
                    lemma_reroutes(
                        self.graph,
                        self.placement,
                        self.constraints,
                        room,
                        &*earlier,
                        others@,
                        connection.sink,
                        &*kept,
                        &route,
                    );
                    assert(route_fits(self.graph, self.placement, self.constraints, net, route));
                    self.lemma_still_reached(connection, &*earlier, &route, at);
                    let event = PolishEvent { connection, blockers, outcome: Some(route) };
                    assert(self.is_search(base, slots, event));
                }
                let later_cost: Option<u64> = self.price(connection, &route);
                if let (Some(before), Some(after)) = (earlier_cost, later_cost) {
                    if after < before {
                        let freed = self.accept(
                            connection,
                            &earlier,
                            &kept,
                            route,
                            &full.0,
                            &full.1,
                            routes,
                            workspace,
                            overused_wires,
                            overused_pips,
                            Ghost(base),
                            Ghost(start),
                            Ghost(room),
                            Ghost(at),
                        );
                        return PolishAttempt {
                            blockers,
                            reduction: Some(before - after),
                            wires: freed.0,
                            pips: freed.1,
                            outcome: found,
                        };
                    }
                }
            },
            Err(error) => {
                proof {
                    assert(self.is_hopeless(room, connection, kept.arcs@, blockers.met()));
                    let event = PolishEvent { connection, blockers, outcome: None };
                    assert(self.is_search(base, slots, event));
                }
            },
        }
        let _ = workspace.swap_slot(
            &kept_slot,
            &earlier_slot,
            overused_wires,
            overused_pips,
            Ghost(lower),
            Ghost(index),
        );
        proof {
            assert(lower.update(index, Some(earlier)) =~= slots);
        }
        let wires: Vec<WireId> = Vec::new();
        let pips: Vec<PipId> = Vec::new();
        assert(wires@ == Seq::<WireId>::empty());
        assert(pips@ == Seq::<PipId>::empty());
        PolishAttempt { blockers, reduction: None, wires, pips, outcome: found }
    }

    /// The connection has an arc, and its route holds the driver's wire.
    proof fn lemma_selected_arc(
        &self,
        slots: Seq<Option<Arc<NetRoute>>>,
        connection: Connection,
        earlier: Arc<NetRoute>,
    )
        requires
            self.wf(),
            self.slots_ok(slots),
            self.may_improve(connection, slots),
            slots[connection.net.0 as int] == Some(earlier),
        ensures
            self.has_arc_at(
                slots,
                connection,
                earlier,
                choose|at: int| first_arc_at(*earlier, connection.sink, at),
            ),
    {
        let net = connection.net;
        assert(self.slot_ok(net.0 as int, slots[net.0 as int]));
        let i = choose|i: int|
            0 <= i < earlier.arcs@.len() && (#[trigger] earlier.arcs@[i]).sink == Some(
                connection.sink,
            );
        assert(first_arc_at(*earlier, connection.sink, i)) by {
            assert forall|j: int| 0 <= j < i implies (#[trigger] earlier.arcs@[j]).sink != Some(
                connection.sink,
            ) by {
                if earlier.arcs@[j].sink == Some(connection.sink) {
                    assert(earlier.arcs@[j].sink != earlier.arcs@[i].sink);
                }
            }
        }
        let driver = driver_wire(self.graph, self.placement, net)->0;
        assert(arc_fits(self.graph, self.placement, net, driver, earlier.arcs@[i]));
        earlier.lemma_resources();
        assert(earlier.arcs@[i].wires@.contains(earlier.arcs@[i].wires@[0]));
        assert(earlier.has_wire(driver));
    }

    /// The selected sink is reached again.
    proof fn lemma_still_reached(
        &self,
        connection: Connection,
        earlier: &NetRoute,
        route: &NetRoute,
        at: int,
    )
        requires
            route_fits(self.graph, self.placement, self.constraints, connection.net, *earlier),
            first_arc_at(*earlier, connection.sink, at),
            reroutes(
                self.graph,
                self.placement,
                self.constraints,
                *earlier,
                connection.sink,
                *route,
            ),
        ensures
            route.reaches(connection.sink),
    {
        let net = connection.net;
        let driver = driver_wire(self.graph, self.placement, net)->0;
        let sinks = self.graph.design.nets@[net.0 as int].sinks@;
        assert(arc_fits(self.graph, self.placement, net, driver, earlier.arcs@[at]));
        let k = sinks.index_of(connection.sink);
        assert(sinks[k] == connection.sink);
        assert(route.reaches(sinks[k]));
    }
}

} // verus!
