//! Routing of a placed design.

use std::sync::Arc;

use vstd::prelude::*;

use crate::cost_validation::{costs_valid, lemma_valid_costs_fit, validate_routing_costs};
use crate::device::{Device, UnifiedGraph};
use crate::error::PnrError;
use crate::model::{Design, NetId, PipId};
use crate::negotiate::{
    all_done, events_since, extends_log, lemma_within_is_countable, nets_have_work, route,
    within_capacity, RoutingProgress,
};
use crate::net_routing::{arc_fits, consistent, driver_wire};
use crate::net_state::{lemma_arcs_slot_fits, lemma_constraint_keeps, locked_arcs, serves_net};
use crate::occupancy::{lemma_users_range, pip_sets, slot_pips, users, wire_sets};
use crate::ordered::OrderedKey;
use crate::placement::{PinWireCache, Placement};
use crate::route::NetRoute;
use crate::route_shape::{consistent_route_is_tree, is_tree};
use crate::routing_constraints::RoutingConstraints;
use crate::routing_costs::{RoutingCosts, MAX_ROUTING_ITERATIONS};
use crate::search::RouteSearch;
use crate::trial::Trial;
use crate::validation::{
    constraint_defect, constraints_fit, route_fits, validate_routing_constraints,
};
use crate::workspace::{
    constraint_slot, constraint_slots, countable, filled, slot_fits, slots_fit, RoutingWorkspace};

verus! {

/// Complete result of place and route.
#[derive(Clone, Debug, PartialEq, Eq)]
pub struct PnrResult {
    /// Legal cell-to-BEL assignment.
    pub placement: Placement,
    /// One physical route tree per logical net.
    pub routes: Vec<Arc<NetRoute>>,
    /// Number of unique PIPs used across all net trees.
    pub total_pips: usize,
}

/// PIPs that the routes use.
pub open spec fn used_pips(routes: Seq<Arc<NetRoute>>) -> Set<PipId> {
    Set::new(
        |p: PipId| exists|i: int| 0 <= i < routes.len() && (#[trigger] routes[i]).has_pip(p),
    )
}

/// Routes that serve every net of the design by a tree, within every capacity.
pub open spec fn routes_serve(
    graph: UnifiedGraph<'_>,
    placement: &Placement,
    constraints: &RoutingConstraints,
    routes: Seq<Arc<NetRoute>>,
) -> bool {
    &&& routes.len() == graph.design.nets@.len()
    &&& forall|i: int|
        0 <= i < routes.len() ==> serves_net(
            graph,
            placement,
            constraints,
            NetId(i as usize),
            *#[trigger] routes[i],
        )
    &&& forall|i: int| 0 <= i < routes.len() ==> is_tree(*#[trigger] routes[i])
    &&& within_capacity(graph.device, filled(routes))
}

/// The routes of the constraints, one of each net.
pub open spec fn fixed_routes(design: &Design, constraints: &RoutingConstraints) -> Seq<
    Arc<NetRoute>,
> {
    Seq::new(
        design.nets@.len(),
        |i: int| constraints.routes@[NetId(i as usize)],
    )
}

/// The constraints hold a route of every net, and together these already serve the design.
pub open spec fn already_routed(
    graph: UnifiedGraph<'_>,
    placement: &Placement,
    constraints: &RoutingConstraints,
) -> bool {
    &&& forall|n: NetId|
        n.0 < graph.design.nets@.len() ==> #[trigger] constraints.routes@.contains_key(n)
    &&& routes_serve(graph, placement, constraints, fixed_routes(graph.design, constraints))
}

/// The trial has these inputs.
pub open spec fn tries(
    trial: Trial<'_>,
    graph: UnifiedGraph<'_>,
    placement: &Placement,
    constraints: &RoutingConstraints,
    costs: Option<&RoutingCosts>,
) -> bool {
    &&& trial.graph == graph
    &&& trial.placement == placement
    &&& trial.constraints == constraints
    &&& trial.costs == costs
}

/// The slots that a routing begins with.
pub open spec fn first_slots(design: &Design, constraints: &RoutingConstraints) -> Seq<
    Option<Arc<NetRoute>>,
> {
    constraint_slots(constraints, design.nets@.len() as int)
}

/// The negotiation from the immutable routes on, with the standard estimates, ends
/// with these routes and tells these events.
pub open spec fn is_negotiated(
    graph: UnifiedGraph<'_>,
    placement: &Placement,
    constraints: &RoutingConstraints,
    costs: Option<&RoutingCosts>,
    log: Seq<RoutingProgress>,
    routes: Seq<Arc<NetRoute>>,
) -> bool {
    exists|trial: Trial<'_>, base: RouteSearch|
        #[trigger] tries(trial, graph, placement, constraints, costs)
            && base.has_standard_estimates() && #[trigger] trial.negotiates(
            base,
            first_slots(graph.design, constraints),
            filled(routes),
            log,
        )
}

/// The negotiation from the immutable routes on, with the standard estimates, fails
/// for this reason and tells these events.
pub open spec fn negotiation_fails(
    graph: UnifiedGraph<'_>,
    placement: &Placement,
    constraints: &RoutingConstraints,
    costs: Option<&RoutingCosts>,
    log: Seq<RoutingProgress>,
    error: PnrError,
) -> bool {
    exists|trial: Trial<'_>, base: RouteSearch|
        #[trigger] tries(trial, graph, placement, constraints, costs) && trial.failed(error)
            && base.has_standard_estimates() && #[trigger] trial.gives_up(
            base,
            first_slots(graph.design, constraints),
            error,
            log,
        )
}

/// Why the placed design could not be routed; nothing is told of inputs that are
/// refused.
pub open spec fn routing_refused(
    graph: UnifiedGraph<'_>,
    placement: &Placement,
    constraints: &RoutingConstraints,
    costs: Option<&RoutingCosts>,
    log: Seq<RoutingProgress>,
    error: PnrError,
) -> bool {
    if !constraints_fit(graph, placement, constraints) {
        log.len() == 0 && constraint_defect(graph, placement, constraints, error)
    } else if costs matches Some(costs) && !costs_valid(graph, costs) {
        log.len() == 0 && error is InvalidRoutingCosts
    } else {
        match error {
            PnrError::RouteIsNotTree { net, wires, pips } => exists|routes: Seq<Arc<NetRoute>>|
                {
                    let route = *routes[net.0 as int];
                    &&& net.0 < graph.design.nets@.len()
                    &&& #[trigger] is_negotiated(graph, placement, constraints, costs, log, routes)
                    &&& serves_net(graph, placement, constraints, net, route)
                    &&& !is_tree(route)
                    &&& wires == route.wire_refs.ordered().len()
                    &&& pips == route.pip_refs.ordered().len()
                },
            _ => negotiation_fails(graph, placement, constraints, costs, log, error),
        }
    }
}

/// What routing a placed design gives, and which events it tells.
pub open spec fn routing_outcome(
    graph: UnifiedGraph<'_>,
    placement: Placement,
    constraints: &RoutingConstraints,
    costs: Option<&RoutingCosts>,
    log: Seq<RoutingProgress>,
    result: Result<PnrResult, PnrError>,
) -> bool {
    &&& match result {
        Ok(routed) => {
            &&& constraints_fit(graph, &placement, constraints)
            &&& costs matches Some(costs) ==> costs_valid(graph, costs)
            &&& routed.placement == placement
            &&& routes_serve(graph, &placement, constraints, routed.routes@)
            &&& is_negotiated(graph, &placement, constraints, costs, log, routed.routes@)
            &&& routed.total_pips == used_pips(routed.routes@).len()
        },
        Err(error) => routing_refused(graph, &placement, constraints, costs, log, error),
    }
    &&& constraints_fit(graph, &placement, constraints) && (costs matches Some(costs)
        ==> costs_valid(graph, costs)) && already_routed(graph, &placement, constraints)
        ==> result is Ok && result->Ok_0.routes@ == fixed_routes(graph.design, constraints)
}

/// What routing a placed design gives, whatever it tells.
pub open spec fn is_routed(
    graph: UnifiedGraph<'_>,
    placement: Placement,
    constraints: &RoutingConstraints,
    costs: Option<&RoutingCosts>,
    result: Result<PnrResult, PnrError>,
) -> bool {
    exists|log: Seq<RoutingProgress>| #[trigger]
        routing_outcome(graph, placement, constraints, costs, log, result)
}

/// The routes are ordered, and every PIP of theirs is on the device.
pub open spec fn pips_known(routes: Seq<Arc<NetRoute>>, pip_count: int) -> bool {
    &&& forall|i: int| 0 <= i < routes.len() ==> (#[trigger] routes[i]).wf()
    &&& forall|i: int, p: PipId|
        0 <= i < routes.len() && #[trigger] routes[i].has_pip(p) ==> p.0 < pip_count
}

/// Routes that fit the device use its PIPs.
pub(crate) proof fn lemma_pips_known(routes: Seq<Arc<NetRoute>>, wires: int, pips: int)
    requires
        slots_fit(filled(routes), wires, pips),
    ensures
        pips_known(routes, pips),
{
    assert forall|i: int| 0 <= i < routes.len() implies (#[trigger] routes[i]).wf() by {
        assert(slot_fits(filled(routes)[i], wires, pips));
    }
    assert forall|i: int, p: PipId| 0 <= i < routes.len() && #[trigger] routes[i].has_pip(
        p,
    ) implies p.0 < pips by {
        assert(slot_fits(filled(routes)[i], wires, pips));
        assert(routes[i].pip_refs@.contains_key(p));
        assert(slot_pips(Some(routes[i])).contains(p.rank()));
    }
}

/// Number of PIPs that the routes use, each counted once.
pub(crate) fn count_pips(routes: &Vec<Arc<NetRoute>>, pip_count: usize) -> (result: usize)
    requires
        pips_known(routes@, pip_count as int),
    ensures
        used_pips(routes@).finite(),
        result == used_pips(routes@).len(),
{
    let mut used: Vec<bool> = vec![false; pip_count];
    let mut total: usize = 0;
    let ghost mut seen: Set<PipId> = Set::empty();
    let mut index: usize = 0;
    proof {
        assert(used_pips(routes@.take(0)) =~= Set::<PipId>::empty());
    }
    while index < routes.len()
        invariant
            index <= routes@.len(),
            pips_known(routes@, pip_count as int),
            used@.len() == pip_count,
            seen.finite(),
            total == seen.len(),
            total <= pip_count,
            seen == used_pips(routes@.take(index as int)),
            forall|p: PipId| #[trigger] seen.contains(p) ==> p.0 < pip_count,
            forall|p: PipId|
                p.0 < pip_count ==> (#[trigger] seen.contains(p) <==> used@[p.0 as int]),
        decreases routes@.len() - index,
    {
        let pips = routes[index].pips();
        let ghost before = seen;
        let mut at: usize = 0;
        while at < pips.len()
            invariant
                at <= pips@.len(),
                index < routes@.len(),
                pips@ == routes@[index as int].pip_refs.ordered(),
                pips_known(routes@, pip_count as int),
                used@.len() == pip_count,
                seen.finite(),
                total == seen.len(),
                total <= pip_count,
                forall|p: PipId| #[trigger]
                    seen.contains(p) <==> before.contains(p) || pips@.take(at as int).contains(p),
                forall|p: PipId| #[trigger] seen.contains(p) ==> p.0 < pip_count,
                forall|p: PipId|
                    p.0 < pip_count ==> (#[trigger] seen.contains(p) <==> used@[p.0 as int]),
            decreases pips@.len() - at,
        {
            let pip = pips[at];
            let ghost earlier = seen;
            proof {
                let table = routes@[index as int].pip_refs;
                assert(table.ordered().contains(pip)) by {
                    assert(table.ordered()[at as int] == pip);
                }
                routes@[index as int].lemma_listed_pip(pip);
                assert(routes@[index as int].has_pip(pip));
            }
            if !used[pip.0] {
                used.set(pip.0, true);
                proof {
                    seen = seen.insert(pip);
                    lemma_below(seen, pip_count as int);
                }
                total = total + 1;
            }
            proof {
                let longer = pips@.take(at + 1);
                assert(longer =~= pips@.take(at as int).push(pip));
                assert forall|p: PipId| #[trigger] seen.contains(p) <==> before.contains(p)
                    || longer.contains(p) by {
                    assert(earlier.contains(p) <==> before.contains(p) || pips@.take(
                        at as int,
                    ).contains(p));
                    if pips@.take(at as int).contains(p) {
                        let k = pips@.take(at as int).index_of(p);
                        assert(longer[k] == p);
                    }
                    if p == pip {
                        assert(longer[at as int] == p);
                    } else if longer.contains(p) {
                        let k = longer.index_of(p);
                        assert(pips@.take(at as int)[k] == p);
                    }
                }
            }
            at = at + 1;
        }
        proof {
            assert(pips@.take(at as int) =~= pips@);
            let shorter = routes@.take(index as int);
            let longer = routes@.take(index + 1);
            assert forall|p: PipId| seen.contains(p) == used_pips(longer).contains(p) by {
                routes@[index as int].lemma_listed_pip(p);
                if before.contains(p) {
                    let i = choose|i: int|
                        0 <= i < shorter.len() && (#[trigger] shorter[i]).has_pip(p);
                    assert(longer[i].has_pip(p));
                }
                if pips@.contains(p) {
                    assert(longer[index as int].has_pip(p));
                }
                if used_pips(longer).contains(p) {
                    let i = choose|i: int|
                        0 <= i < longer.len() && (#[trigger] longer[i]).has_pip(p);
                    if i < index {
                        assert(shorter[i].has_pip(p));
                    }
                }
            }
            assert(seen =~= used_pips(longer));
        }
        index = index + 1;
    }
    assert(routes@.take(index as int) =~= routes@);
    total
}

/// A set of small numbers is small.
proof fn lemma_below(set: Set<PipId>, bound: int)
    requires
        set.finite(),
        0 <= bound <= usize::MAX,
        forall|p: PipId| #[trigger] set.contains(p) ==> p.0 < bound,
    ensures
        set.len() <= bound,
    decreases bound,
{
    if bound == 0 {
        assert(set =~= Set::empty());
    } else {
        let last = PipId((bound - 1) as usize);
        lemma_below(set.remove(last), bound - 1);
    }
}

/// Whether the route has one wire more than it has PIPs.
pub(crate) fn route_is_tree(route: &NetRoute) -> (result: bool)
    ensures
        result == is_tree(*route),
{
    let wires: usize = route.wires().len();
    let pips: usize = route.pips().len();
    pips != usize::MAX && pips + 1 == wires
}

/// Reports a route that is no tree.
fn check_trees(routes: &Vec<Arc<NetRoute>>) -> (result: Result<(), PnrError>)
    ensures
        match result {
            Ok(()) => forall|i: int| 0 <= i < routes@.len() ==> is_tree(*#[trigger] routes@[i]),
            Err(error) => exists|i: int|
                {
                    &&& 0 <= i < routes@.len()
                    &&& !is_tree(*#[trigger] routes@[i])
                    &&& error matches PnrError::RouteIsNotTree { net, wires, pips } && {
                        &&& net == routes@[i].net
                        &&& wires == routes@[i].wire_refs.ordered().len()
                        &&& pips == routes@[i].pip_refs.ordered().len()
                    }
                },
        },
{
    let mut index: usize = 0;
    while index < routes.len()
        invariant
            index <= routes@.len(),
            forall|i: int| 0 <= i < index ==> is_tree(*#[trigger] routes@[i]),
        decreases routes@.len() - index,
    {
        let route = &routes[index];
        if !route_is_tree(route) {
            assert(!is_tree(*routes@[index as int]));
            return Err(
                PnrError::RouteIsNotTree {
                    net: route.net,
                    wires: route.wires().len(),
                    pips: route.pips().len(),
                },
            );
        }
        index = index + 1;
    }
    Ok(())
}

/// Constraints that fit give slots that fit.
proof fn lemma_constraint_slots(
    graph: UnifiedGraph<'_>,
    placement: &Placement,
    constraints: &RoutingConstraints,
)
    requires
        graph.wf(),
        placement.fits(graph.device),
        constraints.wf(),
        constraints_fit(graph, placement, constraints),
    ensures
        forall|n: NetId| #[trigger]
            constraints.routes@.contains_key(n) ==> n.0 < graph.design.nets@.len() && slot_fits(
                Some(constraints.routes@[n]),
                graph.device.wires@.len() as int,
                graph.device.pips@.len() as int,
            ),
{
    assert forall|n: NetId| #[trigger] constraints.routes@.contains_key(n) implies n.0
        < graph.design.nets@.len() && slot_fits(
        Some(constraints.routes@[n]),
        graph.device.wires@.len() as int,
        graph.device.pips@.len() as int,
    ) by {
        assert(route_fits(graph, placement, constraints, n, *constraints.routes@[n]));
        lemma_arcs_slot_fits(graph, placement, n, constraints.routes@[n]);
    }
}

/// Routes that cannot be counted are too many for some resource.
proof fn lemma_uncounted_is_tight(trial: Trial<'_>, routes: Seq<Option<Arc<NetRoute>>>)
    requires
        routes.len() == trial.net_count(),
        !countable(
            routes,
            trial.graph.device.wires@.len() as int,
            trial.graph.device.pips@.len() as int,
        ),
    ensures
        trial.is_tight(),
{
    let device = trial.graph.device;
    if exists|r: int|
        0 <= r < device.wires@.len() && #[trigger] users(wire_sets(routes), r) > u16::MAX {
        let r = choose|r: int|
            0 <= r < device.wires@.len() && #[trigger] users(wire_sets(routes), r) > u16::MAX;
        lemma_users_range(wire_sets(routes), r);
        assert(device.wires@[r].capacity < trial.net_count());
    } else {
        let r = choose|r: int|
            0 <= r < device.pips@.len() && #[trigger] users(pip_sets(routes), r) > u16::MAX;
        lemma_users_range(pip_sets(routes), r);
        assert(device.pips@[r].capacity < trial.net_count());
    }
}

/// Routes a placed design, using reusable device-sized state.
fn finish_routing_with_workspace(
    graph: &UnifiedGraph<'_>,
    placement: Placement,
    routing_constraints: &RoutingConstraints,
    routing_costs: Option<&RoutingCosts>,
    workspace: &mut RoutingWorkspace,
    progress: &mut Vec<RoutingProgress>,
) -> (result: Result<PnrResult, PnrError>)
    requires
        graph.wf(),
        placement.fits(graph.device),
        routing_constraints.wf(),
        nets_have_work(graph.design, routing_constraints),
        routing_costs matches Some(costs) ==> costs.wf(),
        old(workspace).is_ready(),
    ensures
        routing_outcome(
            *graph,
            placement,
            routing_constraints,
            routing_costs,
            events_since(old(progress)@, final(progress)@),
            result,
        ),
        final(workspace).is_ready(),
        result matches Ok(routed) ==> {
            &&& final(workspace).fits(graph.device)
            &&& final(workspace).resident_valid
            &&& final(workspace).resident_routes@ == filled(routed.routes@)
        },
        extends_log(old(progress)@, final(progress)@),
{
    proof {
        assert(progress@.take(progress@.len() as int) =~= progress@);
        assert(events_since(progress@, progress@) =~= Seq::<RoutingProgress>::empty());
    }
    let pin_wires = PinWireCache::build(graph, &placement);
    match validate_routing_constraints(graph, &placement, &pin_wires, routing_constraints) {
        Err(error) => {
            return Err(error);
        },
        Ok(()) => {},
    }
    match validate_routing_costs(graph, routing_costs) {
        Err(error) => {
            return Err(error);
        },
        Ok(()) => {},
    }
    proof {
        lemma_constraint_slots(*graph, &placement, routing_constraints);
        if let Some(costs) = routing_costs {
            lemma_valid_costs_fit(*graph, costs);
        }
        assert(graph.design.nets.len() == graph.design.nets@.len());
    }
    let trial = Trial {
        graph: *graph,
        placement: &placement,
        pin_wires: &pin_wires,
        constraints: routing_constraints,
        costs: routing_costs,
    };
    assert(trial.wf());
    assert(tries(trial, *graph, &placement, routing_constraints, routing_costs));
    let net_count: usize = graph.design().nets.len();
    let routes = match workspace.prepare_routes(graph.device(), net_count, routing_constraints) {
        Some(routes) => routes,
        None => {
            let iterations: u32 = match routing_costs {
                Some(costs) => costs.max_iterations(),
                None => MAX_ROUTING_ITERATIONS,
            };
            let error = PnrError::CongestionNotResolved {
                iterations,
                overused_wires: 0,
                overused_pips: 0,
            };
            proof {
                let begun = first_slots(graph.design, routing_constraints);
                lemma_uncounted_is_tight(trial, begun);
                if already_routed(*graph, &placement, routing_constraints) {
                    assert(begun =~= filled(fixed_routes(graph.design, routing_constraints)));
                    lemma_within_is_countable(graph.device, begun);
                }
                assert(trial.failed(error));
                assert(events_since(progress@, progress@) =~= Seq::<RoutingProgress>::empty());
                assert(trial.runs_out(
                    workspace.search,
                    begun,
                    error,
                    Seq::<RoutingProgress>::empty(),
                ));
                assert(trial.gives_up(
                    workspace.search,
                    begun,
                    error,
                    Seq::<RoutingProgress>::empty(),
                ));
            }
            return Err(error);
        },
    };
    let ghost begun = routes@;
    let ghost base = workspace.search;
    assert(begun =~= first_slots(graph.design, routing_constraints));
    proof {
        assert forall|i: int| 0 <= i < begun.len() implies trial.slot_ok(i, #[trigger] begun[i]) by {
            let net = NetId(i as usize);
            assert(begun[i] == constraint_slot(routing_constraints, i));
            if routing_constraints.routes@.contains_key(net) {
                lemma_constraint_keeps(*graph, &placement, routing_constraints, net);
            }
        }
        if already_routed(*graph, &placement, routing_constraints) {
            let fixed = fixed_routes(graph.design, routing_constraints);
            assert forall|i: int| 0 <= i < begun.len() implies begun[i] == Some(
                #[trigger] fixed[i],
            ) by {
                assert(begun[i] == constraint_slot(routing_constraints, i));
                assert(routing_constraints.routes@.contains_key(NetId(i as usize)));
            }
            assert(begun =~= filled(fixed));
            assert forall|i: int| 0 <= i < begun.len() implies trial.slot_done(
                i,
                #[trigger] begun[i],
            ) by {
                assert(begun[i] == Some(fixed[i]));
                assert(serves_net(
                    *graph,
                    &placement,
                    routing_constraints,
                    NetId(i as usize),
                    *fixed[i],
                ));
            }
            assert(all_done(trial, begun));
            assert(within_capacity(graph.device, begun));
        }
    }
    let outcome = route(&trial, workspace, routes, progress);
    let ghost log = events_since(old(progress)@, progress@);
    let routes = match outcome {
        Err(error) => {
            proof {
                assert(trial.failed(error));
                assert(trial.gives_up(base, begun, error, log));
            }
            return Err(error);
        },
        Ok(routes) => routes,
    };
    proof {
        assert(trial.negotiates(base, begun, filled(routes@), log));
        assert(is_negotiated(
            *graph,
            &placement,
            routing_constraints,
            routing_costs,
            log,
            routes@,
        ));
        assert forall|i: int| 0 <= i < routes@.len() implies serves_net(
            *graph,
            &placement,
            routing_constraints,
            NetId(i as usize),
            *#[trigger] routes@[i],
        ) by {
            assert(trial.slot_done(i, filled(routes@)[i]));
        }
        if already_routed(*graph, &placement, routing_constraints) {
            let fixed = fixed_routes(graph.design, routing_constraints);
            assert forall|i: int| 0 <= i < routes@.len() implies routes@[i] == #[trigger] fixed[i] by {
                assert(filled(routes@)[i] == filled(fixed)[i]);
            }
            assert(routes@ =~= fixed);
        }
    }
    match check_trees(&routes) {
        Err(error) => {
            return Err(error);
        },
        Ok(()) => {},
    }
    proof {
        lemma_pips_known(
            routes@,
            graph.device.wires@.len() as int,
            graph.device.pips@.len() as int,
        );
    }
    let total_pips: usize = count_pips(&routes, graph.device().pips.len());
    workspace.commit_routes(&routes);
    Ok(PnrResult { placement, routes, total_pips })
}

/// A net with a sink whose immutable part enters no wire in two ways is routed by a tree.
pub proof fn served_net_is_tree(
    graph: UnifiedGraph<'_>,
    placement: &Placement,
    constraints: &RoutingConstraints,
    net: NetId,
    route: NetRoute,
)
    requires
        serves_net(graph, placement, constraints, net, route),
        consistent(locked_arcs(constraints, net)),
        graph.design.nets@[net.0 as int].sinks@.len() > 0,
    ensures
        is_tree(route),
{
    let driver = driver_wire(graph, placement, net)->0;
    assert(route.reaches(graph.design.nets@[net.0 as int].sinks@[0]));
    assert forall|i: int| 0 <= i < route.arcs@.len() implies (#[trigger] route.arcs@[i]).is_path(
        graph.device,
        driver,
    ) by {
        assert(arc_fits(graph, placement, net, driver, route.arcs@[i]));
    }
    consistent_route_is_tree(graph.device, driver, route);
}

/// Routes a design from an already selected legal placement.
///
/// # Errors
///
/// Returns an invalid routing-constraint, model, or routability error.
pub fn route_with_placement(
    design: &Design,
    device: &Device,
    placement: Placement,
    routing_constraints: &RoutingConstraints,
) -> (result: Result<PnrResult, PnrError>)
    requires
        UnifiedGraph::of(design, device).wf(),
        placement.fits(device),
        routing_constraints.wf(),
        nets_have_work(design, routing_constraints),
    ensures
        is_routed(
            UnifiedGraph::of(design, device),
            placement,
            routing_constraints,
            None,
            result,
        ),
{
    let mut progress: Vec<RoutingProgress> = Vec::new();
    route_with_placement_and_progress(
        design,
        device,
        placement,
        routing_constraints,
        &mut progress,
    )
}

/// Routes an existing placement while logging deterministic progress.
///
/// # Errors
///
/// Returns an invalid routing-constraint, model, or routability error.
pub fn route_with_placement_and_progress(
    design: &Design,
    device: &Device,
    placement: Placement,
    routing_constraints: &RoutingConstraints,
    progress: &mut Vec<RoutingProgress>,
) -> (result: Result<PnrResult, PnrError>)
    requires
        UnifiedGraph::of(design, device).wf(),
        placement.fits(device),
        routing_constraints.wf(),
        nets_have_work(design, routing_constraints),
    ensures
        routing_outcome(
            UnifiedGraph::of(design, device),
            placement,
            routing_constraints,
            None,
            events_since(old(progress)@, final(progress)@),
            result,
        ),
        extends_log(old(progress)@, final(progress)@),
{
    let mut workspace = RoutingWorkspace::new(device);
    finish_routing_with_workspace(
        &UnifiedGraph::new(design, device),
        placement,
        routing_constraints,
        None,
        &mut workspace,
        progress,
    )
}

/// Routes an existing placement with characterized timing costs and progress.
///
/// # Errors
///
/// Returns an invalid cost/constraint, model, or routability error.
pub fn route_with_timing_costs_and_progress(
    design: &Design,
    device: &Device,
    placement: Placement,
    routing_constraints: &RoutingConstraints,
    routing_costs: &RoutingCosts,
    progress: &mut Vec<RoutingProgress>,
) -> (result: Result<PnrResult, PnrError>)
    requires
        UnifiedGraph::of(design, device).wf(),
        placement.fits(device),
        routing_constraints.wf(),
        nets_have_work(design, routing_constraints),
        routing_costs.wf(),
    ensures
        routing_outcome(
            UnifiedGraph::of(design, device),
            placement,
            routing_constraints,
            Some(routing_costs),
            events_since(old(progress)@, final(progress)@),
            result,
        ),
        extends_log(old(progress)@, final(progress)@),
{
    let mut workspace = RoutingWorkspace::new(device);
    finish_routing_with_workspace(
        &UnifiedGraph::new(design, device),
        placement,
        routing_constraints,
        Some(routing_costs),
        &mut workspace,
        progress,
    )
}

/// Routes an existing placement using reusable device-sized state.
///
/// # Errors
///
/// Returns an invalid routing-constraint, model, or routability error.
pub fn route_with_workspace_and_progress(
    design: &Design,
    device: &Device,
    placement: Placement,
    routing_constraints: &RoutingConstraints,
    workspace: &mut RoutingWorkspace,
    progress: &mut Vec<RoutingProgress>,
) -> (result: Result<PnrResult, PnrError>)
    requires
        UnifiedGraph::of(design, device).wf(),
        placement.fits(device),
        routing_constraints.wf(),
        nets_have_work(design, routing_constraints),
        old(workspace).is_ready(),
    ensures
        routing_outcome(
            UnifiedGraph::of(design, device),
            placement,
            routing_constraints,
            None,
            events_since(old(progress)@, final(progress)@),
            result,
        ),
        final(workspace).is_ready(),
        result matches Ok(routed) ==> {
            &&& final(workspace).fits(device)
            &&& final(workspace).resident_valid
            &&& final(workspace).resident_routes@ == filled(routed.routes@)
        },
        extends_log(old(progress)@, final(progress)@),
{
    finish_routing_with_workspace(
        &UnifiedGraph::new(design, device),
        placement,
        routing_constraints,
        None,
        workspace,
        progress,
    )
}

/// Routes with characterized costs using reusable device-sized state.
///
/// # Errors
///
/// Returns an invalid cost/constraint, model, or routability error.
pub fn route_with_timing_costs_workspace_and_progress(
    design: &Design,
    device: &Device,
    placement: Placement,
    routing_constraints: &RoutingConstraints,
    routing_costs: &RoutingCosts,
    workspace: &mut RoutingWorkspace,
    progress: &mut Vec<RoutingProgress>,
) -> (result: Result<PnrResult, PnrError>)
    requires
        UnifiedGraph::of(design, device).wf(),
        placement.fits(device),
        routing_constraints.wf(),
        nets_have_work(design, routing_constraints),
        routing_costs.wf(),
        old(workspace).is_ready(),
    ensures
        routing_outcome(
            UnifiedGraph::of(design, device),
            placement,
            routing_constraints,
            Some(routing_costs),
            events_since(old(progress)@, final(progress)@),
            result,
        ),
        final(workspace).is_ready(),
        result matches Ok(routed) ==> {
            &&& final(workspace).fits(device)
            &&& final(workspace).resident_valid
            &&& final(workspace).resident_routes@ == filled(routed.routes@)
        },
        extends_log(old(progress)@, final(progress)@),
{
    finish_routing_with_workspace(
        &UnifiedGraph::new(design, device),
        placement,
        routing_constraints,
        Some(routing_costs),
        workspace,
        progress,
    )
}

} // verus!
