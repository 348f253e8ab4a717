//! What an iteration of a negotiation starts from, releases, and remembers.

use std::sync::Arc;

use vstd::prelude::*;

use crate::candidates::can_hold;
use crate::course::{is_noted, is_objective, slot_released, NegotiationPoint};
use crate::cycles::{CongestionObjective, RoutingConflictCycleDetector};
use crate::device::UnifiedGraph;
use crate::model::{BelId, Connection};
use crate::negotiation::Negotiation;
use crate::occupancy::{pip_sets, users, wire_sets};
use crate::placement_constraints::PlacementConstraints;
use crate::release::preserves;
use crate::route::NetRoute;
use crate::search::RouteSearch;
use crate::stages::Stage;
use crate::trial::Trial;
use crate::units::{PlacementChoices, PlacementUnit};
use crate::workspace::RoutingWorkspace;

verus! {

/// A negotiation sets out to route exactly the connections of the design that no arc of
/// the routes reaches, with no overuse remembered.
pub proof fn a_negotiation_opens_with_what_is_not_routed(
    trial: Trial<'_>,
    routes: Seq<Option<Arc<NetRoute>>>,
    point: NegotiationPoint,
    connection: Connection,
)
    requires
        trial.is_opening(routes, point),
    ensures
        point.dirty.contains(connection) <==> {
            &&& connection.net.0 < trial.graph.design.nets@.len()
            &&& trial.graph.design.nets@[connection.net.0 as int].sinks@.contains(connection.sink)
            &&& routes[connection.net.0 as int] matches Some(route) ==> forall|i: int|
                0 <= i < route.arcs@.len() ==> (#[trigger] route.arcs@[i]).sink != Some(
                    connection.sink,
                )
        },
        forall|w: int|
            0 <= w < trial.graph.device.wires@.len() ==> #[trigger] point.wire_history[w] == 0,
        forall|p: int|
            0 <= p < trial.graph.device.pips@.len() ==> #[trigger] point.pip_history[p] == 0,
{
}

/// An iteration remembers the overuse that it leaves: the history of a resource grows by
/// its users above capacity, and stays where there are none.
pub proof fn an_iteration_remembers_its_overuse(
    trial: Trial<'_>,
    base: RouteSearch,
    iteration: int,
    before: NegotiationPoint,
    after: NegotiationPoint,
    resource: int,
)
    requires
        trial.is_iteration(base, iteration, before, after),
        before.wire_history.len() == trial.graph.device.wires@.len(),
        before.pip_history.len() == trial.graph.device.pips@.len(),
    ensures
        0 <= resource < trial.graph.device.wires@.len() ==> {
            let count = users(wire_sets(after.routes), resource);
            let capacity = trial.graph.device.wires@[resource].capacity;
            &&& count > capacity ==> after.wire_history[resource] == before.wire_history[resource]
                + count - capacity
            &&& count <= capacity ==> after.wire_history[resource]
                == before.wire_history[resource]
        },
        0 <= resource < trial.graph.device.pips@.len() ==> {
            let count = users(pip_sets(after.routes), resource);
            let capacity = trial.graph.device.pips@[resource].capacity;
            &&& count > capacity ==> after.pip_history[resource] == before.pip_history[resource]
                + count - capacity
            &&& count <= capacity ==> after.pip_history[resource] == before.pip_history[resource]
        },
        (exists|w: int|
            0 <= w < trial.graph.device.wires@.len() && #[trigger] users(
                wire_sets(after.routes),
                w,
            ) > trial.graph.device.wires@[w].capacity) || (exists|p: int|
            0 <= p < trial.graph.device.pips@.len() && #[trigger] users(pip_sets(after.routes), p)
                > trial.graph.device.pips@[p].capacity),
{
    if 0 <= resource < trial.graph.device.wires@.len() {
        assert(after.wire_history[resource] == after.wire_history[resource]);
    }
    if 0 <= resource < trial.graph.device.pips@.len() {
        assert(after.pip_history[resource] == after.pip_history[resource]);
    }
}

/// Releasing a slot takes out exactly the arcs of the released connections: what is
/// immutable topology or leads to another sink stays as it was.
pub proof fn a_release_takes_out_the_dirty_arcs(
    before: Arc<NetRoute>,
    dirty: Set<Connection>,
    after: Arc<NetRoute>,
    i: int,
    j: int,
)
    requires
        slot_released(Some(before), dirty, Some(after)),
        0 <= i < before.arcs@.len(),
    ensures
        ({
            let arc = before.arcs@[i];
            let released = arc.sink matches Some(sink) && dirty.contains(
                Connection { net: before.net, sink },
            );
            !released ==> exists|k: int|
                0 <= k < after.arcs@.len() && (#[trigger] after.arcs@[k]).same(&arc)
        }),
        0 <= j < after.arcs@.len() ==> {
            let arc = after.arcs@[j];
            &&& arc.sink matches Some(sink) ==> !dirty.contains(
                Connection { net: before.net, sink },
            )
            &&& exists|k: int|
                0 <= k < before.arcs@.len() && (#[trigger] before.arcs@[k]).same(&arc)
        },
{
    reveal(preserves);
    let arc = before.arcs@[i];
    let released = arc.sink matches Some(sink) && dirty.contains(
        Connection { net: before.net, sink },
    );
    if !released {
        assert(crate::release::stays(before.arcs@[i], dirty, before.net));
        assert(crate::net_routing::holds_arc(after.arcs@, before.arcs@[i]));
    }
    if 0 <= j < after.arcs@.len() {
        assert(crate::net_routing::holds_arc(before.arcs@, after.arcs@[j]));
    }
}

/// Every connection that is chosen after an iteration is released in the next.
pub proof fn what_is_chosen_is_released(
    trial: Trial<'_>,
    before: RoutingConflictCycleDetector,
    last: Stage,
    after: NegotiationPoint,
) -> (found: (Negotiation, RoutingWorkspace))
    requires
        trial.is_sequel(before, last, after),
    ensures
        found.0.balanced(found.1, trial),
        found.0.routes@ == after.routes,
        forall|c: Connection| #[trigger]
            trial.is_chosen(found.0, found.1, c) ==> after.dirty.contains(c),
{
    let (state, room, objective, victims) = choose|
        state: Negotiation,
        room: RoutingWorkspace,
        objective: CongestionObjective,
        victims: Set<Connection>,
    |
        {
            &&& #[trigger] state.balanced(room, trial)
            &&& state.routes@ == after.routes
            &&& #[trigger] is_objective(state, room, objective)
            &&& forall|c: Connection|
                victims.contains(c) <==> #[trigger] trial.is_chosen(state, room, c)
            &&& #[trigger] is_noted(
                before,
                objective,
                state.overused_wires@,
                state.overused_pips@,
                victims,
                after.detector,
                after.dirty,
                after.priority,
            )
        };
    (state, room)
}

/// A cell of no group may take every BEL of its kind on which each of its pins has a
/// place, and no other.
pub proof fn a_single_cell_may_take_every_fitting_bel(
    graph: UnifiedGraph<'_>,
    constraints: &PlacementConstraints,
    unit: PlacementUnit,
    bel: BelId,
)
    requires
        unit.wf(graph, constraints),
        unit.choices is SingleCell,
    ensures
        unit.choices.offers(seq![bel]) <==> {
            let cell = graph.design.cells@[unit.cells@[0].0 as int];
            &&& bel.0 < graph.device.bels@.len()
            &&& graph.device.bels@[bel.0 as int].kind == cell.kind
            &&& forall|k: int|
                0 <= k < cell.pins@.len() ==> crate::candidates::choice_pin(
                    graph,
                    constraints,
                    #[trigger] cell.pins@[k],
                    bel,
                ) is Some
        },
{
    if let PlacementChoices::SingleCell(list) = unit.choices {
        if unit.choices.offers(seq![bel]) {
            let i = choose|i: int|
                0 <= i < unit.choices.count() && #[trigger] unit.choices.row(i) == seq![bel];
            assert(unit.choices.row(i)[0] == bel);
            assert(list@[i] == bel);
            assert(list@.contains(bel));
            assert(can_hold(graph, constraints, unit.cells@[0], bel));
        }
        if can_hold(graph, constraints, unit.cells@[0], bel) {
            assert(list@.contains(bel));
            let i = list@.index_of(bel);
            assert(unit.choices.row(i) =~= seq![bel]);
        }
    }
}

} // verus!
