//! Placement of a design, and placement with routing.

use vstd::prelude::*;

use crate::candidates::{
    can_hold, lemma_choice_pin_range, lemma_valid_in_range, CandidateCache,
};
use crate::device::{Device, UnifiedGraph};
use crate::error::PnrError;
use crate::finish::{all_placed, is_finished};
use crate::greedy::{is_greedy, place_units, unit_stuck};
use crate::model::{BelId, CellId, CellPinId, Connection, Design, NetId};
use crate::negotiate::nets_have_work;
use crate::neighbors::{are_degrees, are_neighbors, placement_neighbors, PlacementNeighbor, PlacementWeights};
use crate::ordered::OrderedMap;
use crate::placement::Placement;
use crate::placement_constraints::PlacementConstraints;
use crate::placement_edit::bindings_fit;
use crate::refine_passes::{limit_above_peak_changes_nothing, refine_placement, refines};
use crate::routing::{is_routed, route_with_placement, PnrResult};
use crate::routing_constraints::RoutingConstraints;
use crate::standing::{finish_standing, units_stand};
use crate::start::{index_units, starts_legal, validate_refinement_start, SpatialEntry};
use crate::unit_list::{are_units, placement_units, units_refused};
use crate::units::{constraints_valid, PlacementUnit};

verus! {

/// Where refinement starts: from where units are placed greedily, or from the
/// given bindings.
pub open spec fn is_start(
    graph: UnifiedGraph<'_>,
    constraints: &PlacementConstraints,
    weights: PlacementWeights<'_>,
    units: Seq<PlacementUnit>,
    lists: Seq<Vec<PlacementNeighbor>>,
    start: Option<Seq<BelId>>,
    placed: Seq<Option<BelId>>,
) -> bool {
    match start {
        None => exists|degree: Seq<usize>|
            are_degrees(graph.design, weights, degree) && #[trigger] is_greedy(
                graph,
                constraints,
                degree,
                lists,
                units,
                placed,
            ),
        Some(bindings) => placed == all_placed(bindings),
    }
}

/// The placement is complete and legal, and came by refining the start. The
/// limit bounds the units that move, and the peak is the number that did.
pub open spec fn is_refined_placement(
    graph: UnifiedGraph<'_>,
    constraints: &PlacementConstraints,
    weights: PlacementWeights<'_>,
    limit: Option<usize>,
    start: Option<Seq<BelId>>,
    placement: Placement,
    peak: int,
) -> bool {
    &&& constraints_valid(graph, constraints)
    &&& bindings_fit(graph, constraints, placement.bindings@)
    &&& is_finished(graph, constraints, placement.bindings@, placement)
    &&& exists|
        units: Seq<PlacementUnit>,
        lists: Seq<Vec<PlacementNeighbor>>,
        placed: Seq<Option<BelId>>,
    |
        {
            &&& #[trigger] are_units(graph, constraints, units)
            &&& are_neighbors(graph.design, weights, lists)
            &&& units_stand(units, placed)
            &&& is_start(graph, constraints, weights, units, lists, start, placed)
            &&& #[trigger] refines(
                graph,
                constraints,
                units,
                lists,
                limit,
                placed,
                all_placed(placement.bindings@),
                peak,
            )
        }
}

/// Where fewer units moved than a limit allows, every other limit above that number
/// gives the same placement and the same peak.
pub proof fn limit_above_peak_gives_the_same(
    graph: UnifiedGraph<'_>,
    constraints: &PlacementConstraints,
    weights: PlacementWeights<'_>,
    limit: usize,
    other: usize,
    start: Option<Seq<BelId>>,
    placement: Placement,
    peak: int,
)
    requires
        is_refined_placement(graph, constraints, weights, Some(limit), start, placement, peak),
        peak < limit,
        peak < other,
    ensures
        is_refined_placement(graph, constraints, weights, Some(other), start, placement, peak),
{
    let (units, lists, placed) = choose|
        units: Seq<PlacementUnit>,
        lists: Seq<Vec<PlacementNeighbor>>,
        placed: Seq<Option<BelId>>,
    |
        {
            &&& #[trigger] are_units(graph, constraints, units)
            &&& are_neighbors(graph.design, weights, lists)
            &&& units_stand(units, placed)
            &&& is_start(graph, constraints, weights, units, lists, start, placed)
            &&& #[trigger] refines(
                graph,
                constraints,
                units,
                lists,
                Some(limit),
                placed,
                all_placed(placement.bindings@),
                peak,
            )
        };
    limit_above_peak_changes_nothing(
        graph,
        constraints,
        units,
        lists,
        limit,
        other,
        placed,
        all_placed(placement.bindings@),
        peak,
    );
    assert(are_units(graph, constraints, units));
}

/// The placement came by refining the start, with some peak.
pub open spec fn is_refined(
    graph: UnifiedGraph<'_>,
    constraints: &PlacementConstraints,
    weights: PlacementWeights<'_>,
    limit: Option<usize>,
    start: Option<Seq<BelId>>,
    placement: Placement,
) -> bool {
    exists|peak: int| #[trigger]
        is_refined_placement(graph, constraints, weights, limit, start, placement, peak)
}

/// Placing met a unit without an available row.
pub open spec fn is_stuck(
    graph: UnifiedGraph<'_>,
    constraints: &PlacementConstraints,
    weights: PlacementWeights<'_>,
    error: PnrError,
) -> bool {
    exists|
        units: Seq<PlacementUnit>,
        degree: Seq<usize>,
        lists: Seq<Vec<PlacementNeighbor>>,
    |
        {
            &&& #[trigger] are_units(graph, constraints, units)
            &&& are_degrees(graph.design, weights, degree)
            &&& are_neighbors(graph.design, weights, lists)
            &&& #[trigger] unit_stuck(graph, constraints, degree, lists, units, error)
        }
}

/// What placing a design gives.
pub open spec fn place_outcome(
    graph: UnifiedGraph<'_>,
    constraints: &PlacementConstraints,
    weights: PlacementWeights<'_>,
    result: Result<Placement, PnrError>,
) -> bool {
    match result {
        Ok(placement) => is_refined(graph, constraints, weights, None, None, placement),
        Err(error) => if !constraints_valid(graph, constraints) {
            units_refused(graph, constraints, error)
        } else {
            is_stuck(graph, constraints, weights, error)
        },
    }
}

/// Places the units one after the other, then refines.
fn place(
    graph: &UnifiedGraph<'_>,
    constraints: &PlacementConstraints,
    weights: PlacementWeights<'_>,
) -> (result: Result<Placement, PnrError>)
    requires
        graph.wf(),
        constraints.wf(),
        constraints.groups@.len() + constraints.shared_resources@.len() <= usize::MAX,
        weights.wf(),
    ensures
        place_outcome(*graph, constraints, weights, result),
{
    let (degree, neighbors) = placement_neighbors(graph.design(), weights);
    let mut cache = CandidateCache::new();
    let units = match placement_units(graph, constraints, &mut cache) {
        Err(error) => {
            return Err(error);
        },
        Ok(units) => units,
    };
    let mut state = match place_units(graph, constraints, &units, &degree, &neighbors) {
        Err(error) => {
            assert(are_units(*graph, constraints, units@));
            assert(unit_stuck(
                *graph,
                constraints,
                degree@,
                neighbors@,
                units@,
                error,
            ));
            assert(is_stuck(*graph, constraints, weights, error));
            return Err(error);
        },
        Ok(state) => state,
    };
    let ghost start = state.placed@;
    proof {
        assert(is_greedy(*graph, constraints, degree@, neighbors@, units@, start));
        lemma_valid_in_range(*graph, constraints);
    }
    let mut entries: Vec<SpatialEntry> = Vec::new();
    let spatial = index_units(graph, &units, &mut entries, Ghost(constraints));
    let peak: usize = refine_placement(
        graph,
        constraints,
        &units,
        &spatial,
        &neighbors,
        &mut state,
        None,
    );
    let result = finish_standing(graph, constraints, &state, Ghost(units@));
    proof {
        assert(refines(
            *graph,
            constraints,
            units@,
            neighbors@,
            None,
            start,
            all_placed((result->Ok_0).bindings@),
            peak as int,
        ));
        assert(is_refined_placement(
            *graph,
            constraints,
            weights,
            None,
            None,
            result->Ok_0,
            peak as int,
        ));
    }
    result
}

/// Weights under which every net pulls alike.
fn even_weights<'a>() -> (result: PlacementWeights<'a>)
    ensures
        result == even(),
        result.wf(),
{
    PlacementWeights { net_weights: None, sink_weights: None, sink_budgets: None }
}

/// Weights under which every net pulls alike.
pub open spec fn even<'a>() -> PlacementWeights<'a> {
    PlacementWeights { net_weights: None, sink_weights: None, sink_budgets: None }
}

/// Weights of nets.
pub open spec fn by_net<'a>(table: &'a OrderedMap<NetId, u64>) -> PlacementWeights<'a> {
    PlacementWeights { net_weights: Some(table), sink_weights: None, sink_budgets: None }
}

/// Weights of sinks.
pub open spec fn by_sink<'a>(
    table: &'a OrderedMap<Connection, u64>,
    budgets: Option<&'a OrderedMap<Connection, u32>>,
) -> PlacementWeights<'a> {
    PlacementWeights { net_weights: None, sink_weights: Some(table), sink_budgets: budgets }
}

/// Places a design without routing it.
///
/// # Errors
///
/// Returns a descriptive constraint, model, or BEL-exhaustion error.
pub fn place_with_constraints(
    design: &Design,
    device: &Device,
    constraints: &PlacementConstraints,
) -> (result: Result<Placement, PnrError>)
    requires
        UnifiedGraph::of(design, device).wf(),
        constraints.wf(),
        constraints.groups@.len() + constraints.shared_resources@.len() <= usize::MAX,
    ensures
        place_outcome(UnifiedGraph::of(design, device), constraints, even(), result),
{
    place(&UnifiedGraph::new(design, device), constraints, even_weights())
}

/// Places a design with deterministic per-net timing weights.
///
/// A missing net has weight one. Larger values make Manhattan distance on
/// that net more expensive during both initial placement and refinement.
///
/// # Errors
///
/// Returns a descriptive constraint, model, or BEL-exhaustion error.
pub fn place_with_net_weights(
    design: &Design,
    device: &Device,
    constraints: &PlacementConstraints,
    net_weights: &OrderedMap<NetId, u64>,
) -> (result: Result<Placement, PnrError>)
    requires
        UnifiedGraph::of(design, device).wf(),
        constraints.wf(),
        constraints.groups@.len() + constraints.shared_resources@.len() <= usize::MAX,
        net_weights.wf(),
    ensures
        place_outcome(UnifiedGraph::of(design, device), constraints, by_net(net_weights), result),
{
    let weights = PlacementWeights {
        net_weights: Some(net_weights),
        sink_weights: None,
        sink_budgets: None,
    };
    place(&UnifiedGraph::new(design, device), constraints, weights)
}

/// Places a design with deterministic per-net-sink timing weights.
///
/// A missing sink has weight one. Unlike a per-net weight, this lets timing
/// feedback pull one critical fanout toward its driver without also pulling
/// every non-critical fanout of the same logical net.
///
/// # Errors
///
/// Returns a descriptive constraint, model, or BEL-exhaustion error.
pub fn place_with_net_sink_weights(
    design: &Design,
    device: &Device,
    constraints: &PlacementConstraints,
    sink_weights: &OrderedMap<Connection, u64>,
) -> (result: Result<Placement, PnrError>)
    requires
        UnifiedGraph::of(design, device).wf(),
        constraints.wf(),
        constraints.groups@.len() + constraints.shared_resources@.len() <= usize::MAX,
        sink_weights.wf(),
    ensures
        place_outcome(
            UnifiedGraph::of(design, device),
            constraints,
            by_sink(sink_weights, None),
            result,
        ),
{
    let weights = PlacementWeights {
        net_weights: None,
        sink_weights: Some(sink_weights),
        sink_budgets: None,
    };
    place(&UnifiedGraph::new(design, device), constraints, weights)
}

/// What refining an existing placement gives.
pub open spec fn refine_outcome(
    graph: UnifiedGraph<'_>,
    constraints: &PlacementConstraints,
    weights: PlacementWeights<'_>,
    limit: Option<usize>,
    start: Placement,
    result: Result<Placement, PnrError>,
) -> bool {
    match result {
        Ok(placement) => is_refined(
            graph,
            constraints,
            weights,
            limit,
            Some(start.bindings@),
            placement,
        ),
        Err(error) => if !constraints_valid(graph, constraints) {
            units_refused(graph, constraints, error)
        } else {
            &&& error is InvalidPlacement
            &&& exists|units: Seq<PlacementUnit>| #[trigger]
                are_units(graph, constraints, units) && !starts_legal(
                    graph,
                    constraints,
                    units,
                    start.bindings@,
                )
        },
    }
}

/// Refines an existing placement.
fn refine_existing(
    graph: &UnifiedGraph<'_>,
    constraints: &PlacementConstraints,
    placement: &Placement,
    weights: PlacementWeights<'_>,
) -> (result: Result<Placement, PnrError>)
    requires
        graph.wf(),
        constraints.wf(),
        constraints.groups@.len() + constraints.shared_resources@.len() <= usize::MAX,
        weights.wf(),
    ensures
        refine_outcome(*graph, constraints, weights, None, *placement, result),
{
    let (_, neighbors) = placement_neighbors(graph.design(), weights);
    let mut cache = CandidateCache::new();
    let units = match placement_units(graph, constraints, &mut cache) {
        Err(error) => {
            return Err(error);
        },
        Ok(units) => units,
    };
    proof {
        lemma_valid_in_range(*graph, constraints);
    }
    let mut entries: Vec<SpatialEntry> = Vec::new();
    let spatial = index_units(graph, &units, &mut entries, Ghost(constraints));
    let mut state = match validate_refinement_start(
        graph,
        constraints,
        &units,
        &spatial,
        placement,
    ) {
        Err(error) => {
            assert(are_units(*graph, constraints, units@));
            return Err(error);
        },
        Ok(state) => state,
    };
    let ghost start = state.placed@;
    let peak: usize = refine_placement(
        graph,
        constraints,
        &units,
        &spatial,
        &neighbors,
        &mut state,
        None,
    );
    let result = finish_standing(graph, constraints, &state, Ghost(units@));
    proof {
        assert(refines(
            *graph,
            constraints,
            units@,
            neighbors@,
            None,
            start,
            all_placed((result->Ok_0).bindings@),
            peak as int,
        ));
        assert(is_refined_placement(
            *graph,
            constraints,
            weights,
            None,
            Some(placement.bindings@),
            result->Ok_0,
            peak as int,
        ));
    }
    result
}

/// Refines an existing legal placement with deterministic per-net timing weights.
///
/// Unlike [`place_with_net_weights`], this preserves the current solution as
/// the starting point and accepts only moves that reduce the weighted graph
/// objective. Atomic placement groups remain intact.
///
/// # Errors
///
/// Returns a descriptive error when the supplied placement does not match the
/// design, device, or placement constraints.
pub fn refine_placement_with_net_weights(
    design: &Design,
    device: &Device,
    constraints: &PlacementConstraints,
    placement: Placement,
    net_weights: &OrderedMap<NetId, u64>,
) -> (result: Result<Placement, PnrError>)
    requires
        UnifiedGraph::of(design, device).wf(),
        constraints.wf(),
        constraints.groups@.len() + constraints.shared_resources@.len() <= usize::MAX,
        net_weights.wf(),
    ensures
        refine_outcome(
            UnifiedGraph::of(design, device),
            constraints,
            by_net(net_weights),
            None,
            placement,
            result,
        ),
{
    let weights = PlacementWeights {
        net_weights: Some(net_weights),
        sink_weights: None,
        sink_budgets: None,
    };
    refine_existing(&UnifiedGraph::new(design, device), constraints, &placement, weights)
}

/// Refines an existing legal placement with per-net-sink timing weights.
///
/// Only the specified driver-to-sink edges receive the larger timing cost, so
/// a high-fanout net does not collapse all of its sinks around the driver when
/// only one sink is timing-critical.
///
/// # Errors
///
/// Returns a descriptive error when the supplied placement does not match the
/// design, device, or placement constraints.
pub fn refine_placement_with_net_sink_weights(
    design: &Design,
    device: &Device,
    constraints: &PlacementConstraints,
    placement: Placement,
    sink_weights: &OrderedMap<Connection, u64>,
) -> (result: Result<Placement, PnrError>)
    requires
        UnifiedGraph::of(design, device).wf(),
        constraints.wf(),
        constraints.groups@.len() + constraints.shared_resources@.len() <= usize::MAX,
        sink_weights.wf(),
    ensures
        refine_outcome(
            UnifiedGraph::of(design, device),
            constraints,
            by_sink(sink_weights, None),
            None,
            placement,
            result,
        ),
{
    let weights = PlacementWeights {
        net_weights: None,
        sink_weights: Some(sink_weights),
        sink_budgets: None,
    };
    refine_existing(&UnifiedGraph::new(design, device), constraints, &placement, weights)
}

/// A finished placement names BELs and pins of the device.
pub proof fn lemma_finished_fits(
    graph: UnifiedGraph<'_>,
    constraints: &PlacementConstraints,
    placement: Placement,
)
    requires
        graph.wf(),
        constraints_valid(graph, constraints),
        bindings_fit(graph, constraints, placement.bindings@),
        is_finished(graph, constraints, placement.bindings@, placement),
    ensures
        placement.fits(graph.device),
{
    lemma_valid_in_range(graph, constraints);
    assert forall|c: int| 0 <= c < placement.bindings@.len() implies (
    #[trigger] placement.bindings@[c]).0 < graph.device.bels@.len() by {
        assert(can_hold(graph, constraints, CellId(c as usize), placement.bindings@[c]));
    }
    assert forall|p: CellPinId| #[trigger] placement.pin_bindings@.contains_key(p) implies placement.pin_bindings@[p].0
        < graph.device.bel_pins@.len() by {
        lemma_choice_pin_range(
            graph,
            constraints,
            p,
            placement.bindings@[graph.design.pins@[p.0 as int].cell.0 as int],
        );
    }
}

/// What placing and routing a design gives.
pub open spec fn place_and_route_outcome(
    graph: UnifiedGraph<'_>,
    placement_constraints: &PlacementConstraints,
    routing_constraints: &RoutingConstraints,
    result: Result<PnrResult, PnrError>,
) -> bool {
    ||| (result matches Err(error) && place_outcome(
        graph,
        placement_constraints,
        even(),
        Err(error),
    ))
    ||| exists|placement: Placement|
        {
            &&& #[trigger] place_outcome(
                graph,
                placement_constraints,
                even(),
                Ok::<Placement, PnrError>(placement),
            )
            &&& is_routed(graph, placement, routing_constraints, None, result)
        }
}

/// Places and routes a design on a typed unified graph.
///
/// The placer traverses `Cell -> BEL` candidates and orders cells by logical
/// connectivity. The router resolves each placed cell pin to `BEL pin -> Wire`,
/// then grows a tree through directed `Wire -> PIP -> Wire` edges without
/// exceeding resource capacity.
///
/// # Errors
///
/// Returns a descriptive model, legality, or routability error.
pub fn place_and_route(design: &Design, device: &Device) -> (result: Result<PnrResult, PnrError>)
    requires
        UnifiedGraph::of(design, device).wf(),
        forall|n: int|
            0 <= n < design.nets@.len() ==> (#[trigger] design.nets@[n]).sinks@.len() > 0,
    ensures
        exists|placement_constraints: PlacementConstraints, routing_constraints: RoutingConstraints|
            {
                &&& placement_constraints.groups@.len() == 0
                &&& placement_constraints.pin_bindings@.dom() == Set::<
                    crate::model::PinChoice,
                >::empty()
                &&& placement_constraints.pin_name_bindings@.dom() == Set::<CellPinId>::empty()
                &&& placement_constraints.shared_resources@.len() == 0
                &&& routing_constraints.routes@.dom() == Set::<NetId>::empty()
                &&& routing_constraints.blocked_pips@ == Set::<crate::model::PipId>::empty()
                &&& #[trigger] place_and_route_outcome(
                    UnifiedGraph::of(design, device),
                    &placement_constraints,
                    &routing_constraints,
                    result,
                )
            },
{
    let placement_constraints = PlacementConstraints::new();
    let routing_constraints = RoutingConstraints::new();
    let result = place_and_route_with_all_constraints(
        design,
        device,
        &placement_constraints,
        &routing_constraints,
    );
    proof {
        assert(placement_constraints.pin_bindings@.dom() =~= Set::<
            crate::model::PinChoice,
        >::empty());
        assert(placement_constraints.pin_name_bindings@.dom() =~= Set::<CellPinId>::empty());
        assert(routing_constraints.routes@.dom() =~= Set::<NetId>::empty());
    }
    result
}

/// Places and routes with target-supplied atomic placement groups.
///
/// # Errors
///
/// Returns a descriptive constraint, model, legality, or routability error.
pub fn place_and_route_with_constraints(
    design: &Design,
    device: &Device,
    constraints: &PlacementConstraints,
) -> (result: Result<PnrResult, PnrError>)
    requires
        UnifiedGraph::of(design, device).wf(),
        constraints.wf(),
        constraints.groups@.len() + constraints.shared_resources@.len() <= usize::MAX,
        forall|n: int|
            0 <= n < design.nets@.len() ==> (#[trigger] design.nets@[n]).sinks@.len() > 0,
    ensures
        exists|routing_constraints: RoutingConstraints|
            {
                &&& routing_constraints.routes@.dom() == Set::<NetId>::empty()
                &&& routing_constraints.blocked_pips@ == Set::<crate::model::PipId>::empty()
                &&& #[trigger] place_and_route_outcome(
                    UnifiedGraph::of(design, device),
                    constraints,
                    &routing_constraints,
                    result,
                )
            },
{
    let routing_constraints = RoutingConstraints::new();
    let result = place_and_route_with_all_constraints(
        design,
        device,
        constraints,
        &routing_constraints,
    );
    proof {
        assert(routing_constraints.routes@.dom() =~= Set::<NetId>::empty());
    }
    result
}

/// Places and routes with target-supplied placement and routing constraints.
///
/// # Errors
///
/// Returns a descriptive constraint, model, legality, or routability error.
pub fn place_and_route_with_all_constraints(
    design: &Design,
    device: &Device,
    placement_constraints: &PlacementConstraints,
    routing_constraints: &RoutingConstraints,
) -> (result: Result<PnrResult, PnrError>)
    requires
        UnifiedGraph::of(design, device).wf(),
        placement_constraints.wf(),
        placement_constraints.groups@.len() + placement_constraints.shared_resources@.len()
            <= usize::MAX,
        routing_constraints.wf(),
        nets_have_work(design, routing_constraints),
    ensures
        place_and_route_outcome(
            UnifiedGraph::of(design, device),
            placement_constraints,
            routing_constraints,
            result,
        ),
{
    let graph = UnifiedGraph::new(design, device);
    let placement = match place(&graph, placement_constraints, even_weights()) {
        Err(error) => {
            return Err(error);
        },
        Ok(placement) => placement,
    };
    proof {
        lemma_finished_fits(graph, placement_constraints, placement);
        assert(place_outcome(
            graph,
            placement_constraints,
            even(),
            Ok::<Placement, PnrError>(placement),
        ));
    }
    route_with_placement(design, device, placement, routing_constraints)
}

} // verus!
