//! Reusable legal-placement problem for iterative timing refinement.

use std::sync::Arc;

use vstd::prelude::*;
use vstd::string::*;

use crate::candidates::{candidate_bel_pin, choice_pin, lemma_valid_in_range, CandidateCache};
use crate::device::{Device, UnifiedGraph};
use crate::error::PnrError;
use crate::finish::all_placed;
use crate::model::{BelId, BelPinId, CellPinId, Connection, Design, NetId, PinDirection};
use crate::neighbors::{placement_neighbors, PlacementWeights};
use crate::ordered::OrderedMap;
use crate::place::{by_sink, is_refined, is_refined_placement};
use crate::placement::Placement;
use crate::placement_constraints::PlacementConstraints;
use crate::refine::all_indexed;
use crate::refine_passes::{refine_placement, refines, units_elsewhere};
use crate::spatial::SpatialChoiceIndex;
use crate::standing::finish_standing;
use crate::start::{
    entries_hold, index_units, starts_legal, validate_refinement_start, SpatialEntry,
};
use crate::unit_list::{are_units, placement_units_cached, units_refused};
use crate::units::{constraints_valid, shapes_hold, PlacementUnit, ValidatedGroupShape};

verus! {

/// Reusable legal-placement problem for iterative timing refinement.
///
/// Compatible BEL assignments are independent of timing weights and are
/// expensive to enumerate on large devices. This object builds them once and
/// reuses them across deterministic refinement generations.
pub struct PlacementRefiner<'a> {
    /// Design and device.
    pub graph: UnifiedGraph<'a>,
    /// Placement rules.
    pub constraints: &'a PlacementConstraints,
    /// Units of the problem.
    pub units: Vec<PlacementUnit>,
    /// Index of each unit's choices.
    pub spatial_indexes: Vec<Arc<SpatialChoiceIndex>>,
}

/// Reusable architecture-level tables for rebuilding placement refiners after
/// a packing change.
pub struct PlacementRefinementWorkspace {
    /// Candidates of cell shapes.
    pub candidate_cache: CandidateCache,
    /// Indexes of choices.
    pub spatial_indexes: Vec<SpatialEntry>,
    /// Tables that were found to fit.
    pub validated_group_shapes: Vec<ValidatedGroupShape>,
}

/// The first match depends on the device alone.
proof fn lemma_match_ignores_design(
    a: UnifiedGraph<'_>,
    b: UnifiedGraph<'_>,
    pins: Seq<BelPinId>,
    name: Seq<char>,
    direction: PinDirection,
)
    requires
        a.device == b.device,
    ensures
        a.first_match(pins, name, direction) == b.first_match(pins, name, direction),
    decreases pins.len(),
{
    if pins.len() > 0 {
        lemma_match_ignores_design(a, b, pins.drop_first(), name, direction);
    }
}

/// Candidates that are right for one design are right for every design on the device.
proof fn lemma_cache_ignores_design(
    a: UnifiedGraph<'_>,
    b: UnifiedGraph<'_>,
    cache: &CandidateCache,
)
    requires
        a.device == b.device,
        cache.holds(a),
    ensures
        cache.holds(b),
{
    assert forall|i: int| 0 <= i < cache.entries@.len() implies (
    #[trigger] cache.entries@[i]).holds(b) by {
        let entry = cache.entries@[i];
        assert(entry.holds(a));
        assert forall|bel: BelId| #[trigger]
            entry.candidates@.contains(bel) <==> crate::candidates::offers_shape(
            b,
            entry.kind,
            entry.pins@,
            bel,
        ) by {
            assert forall|k: int| 0 <= k < entry.pins@.len() implies a.first_match(
                a.device.bels@[bel.0 as int].pins@,
                (#[trigger] entry.pins@[k]).name@,
                entry.pins@[k].direction,
            ) == b.first_match(
                b.device.bels@[bel.0 as int].pins@,
                entry.pins@[k].name@,
                entry.pins@[k].direction,
            ) by {
                lemma_match_ignores_design(
                    a,
                    b,
                    a.device.bels@[bel.0 as int].pins@,
                    entry.pins@[k].name@,
                    entry.pins@[k].direction,
                );
            }
            assert(crate::candidates::offers_shape(a, entry.kind, entry.pins@, bel)
                == crate::candidates::offers_shape(b, entry.kind, entry.pins@, bel)) by {
                if crate::candidates::offers_shape(a, entry.kind, entry.pins@, bel) {
                    assert forall|k: int| 0 <= k < entry.pins@.len() implies b.first_match(
                        b.device.bels@[bel.0 as int].pins@,
                        (#[trigger] entry.pins@[k]).name@,
                        entry.pins@[k].direction,
                    ) is Some by {
                        assert(a.first_match(
                            a.device.bels@[bel.0 as int].pins@,
                            entry.pins@[k].name@,
                            entry.pins@[k].direction,
                        ) is Some);
                    }
                }
                if crate::candidates::offers_shape(b, entry.kind, entry.pins@, bel) {
                    assert forall|k: int| 0 <= k < entry.pins@.len() implies a.first_match(
                        a.device.bels@[bel.0 as int].pins@,
                        (#[trigger] entry.pins@[k]).name@,
                        entry.pins@[k].direction,
                    ) is Some by {
                        assert(b.first_match(
                            b.device.bels@[bel.0 as int].pins@,
                            entry.pins@[k].name@,
                            entry.pins@[k].direction,
                        ) is Some);
                    }
                }
            }
        }
    }
}

impl PlacementRefinementWorkspace {
    /// Every table is right for the device.
    pub open spec fn holds(&self, device: &Device) -> bool {
        &&& forall|design: &Design| #[trigger]
            self.candidate_cache.holds(UnifiedGraph::of(design, device))
        &&& entries_hold(self.spatial_indexes@, device)
        &&& shapes_hold(self.validated_group_shapes@)
    }

    /// Creates an empty placement-graph cache.
    pub fn new() -> (result: Self)
        ensures
            forall|device: &Device| #[trigger] result.holds(device),
    {
        PlacementRefinementWorkspace {
            candidate_cache: CandidateCache::new(),
            spatial_indexes: Vec::new(),
            validated_group_shapes: Vec::new(),
        }
    }
}

/// Architecture-specific unloaded delay prediction used by detailed placement.
///
/// The placer owns connectivity, criticality, and normalization. Targets only
/// characterize the physical delay between two candidate BEL pins, including
/// dedicated local interconnect that a coordinate-only model cannot see.
pub trait PlacementDelayEstimator {
    /// Predicts the maximum data delay in picoseconds for one placed net arc.
    fn estimate_delay_ps(
        &self,
        driver_bel: BelId,
        driver_pin: BelPinId,
        sink_bel: BelId,
        sink_pin: BelPinId,
    ) -> u64;
}

/// Why a placement could not be refined.
pub open spec fn start_refused(
    refiner: PlacementRefiner<'_>,
    start: Placement,
    error: PnrError,
) -> bool {
    error is InvalidPlacement && !starts_legal(
        refiner.graph,
        refiner.constraints,
        refiner.units@,
        start.bindings@,
    )
}

/// What a limited refinement gives.
pub open spec fn limited_outcome(
    refiner: PlacementRefiner<'_>,
    start: Placement,
    weights: PlacementWeights<'_>,
    limit: usize,
    result: Result<(Placement, usize), PnrError>,
) -> bool {
    match result {
        Ok(pair) => {
            &&& starts_legal(
                refiner.graph,
                refiner.constraints,
                refiner.units@,
                start.bindings@,
            )
            &&& is_refined_placement(
                refiner.graph,
                refiner.constraints,
                weights,
                Some(limit),
                Some(start.bindings@),
                pair.0,
                pair.1 as int,
            )
        },
        Err(error) => start_refused(refiner, start, error),
    }
}

/// Two physical endpoints of a net arc.
pub struct ArcEnds {
    /// BEL of the driver.
    pub driver_bel: BelId,
    /// Pin of the driver.
    pub driver_pin: BelPinId,
    /// BEL of the sink.
    pub sink_bel: BelId,
    /// Pin of the sink.
    pub sink_pin: BelPinId,
}

impl<'a> PlacementRefiner<'a> {
    /// The units are those of the problem, and each is indexed.
    pub open spec fn wf(&self) -> bool {
        &&& self.graph.wf()
        &&& self.constraints.wf()
        &&& constraints_valid(self.graph, self.constraints)
        &&& are_units(self.graph, self.constraints, self.units@)
        &&& all_indexed(self.graph, self.units@, self.spatial_indexes@)
    }

    /// Builds and caches all legal placement-unit assignments.
    ///
    /// # Errors
    ///
    /// Returns an error if a placement group or candidate binding is invalid.
    pub fn new(
        design: &'a Design,
        device: &'a Device,
        constraints: &'a PlacementConstraints,
    ) -> (result: Result<Self, PnrError>)
        requires
            UnifiedGraph::of(design, device).wf(),
            constraints.wf(),
            constraints.groups@.len() + constraints.shared_resources@.len() <= usize::MAX,
        ensures
            match result {
                Ok(refiner) => {
                    &&& refiner.wf()
                    &&& refiner.graph == UnifiedGraph::of(design, device)
                    &&& refiner.constraints == constraints
                },
                Err(error) => units_refused(
                    UnifiedGraph::of(design, device),
                    constraints,
                    error,
                ),
            },
    {
        let mut workspace = PlacementRefinementWorkspace::new();
        Self::new_with_workspace(design, device, constraints, &mut workspace)
    }

    /// Builds a refiner while reusing architecture-level candidate tables and
    /// spatial indexes retained across packing generations.
    ///
    /// # Errors
    ///
    /// Returns an error if a placement group or candidate binding is invalid.
    pub fn new_with_workspace(
        design: &'a Design,
        device: &'a Device,
        constraints: &'a PlacementConstraints,
        workspace: &mut PlacementRefinementWorkspace,
    ) -> (result: Result<Self, PnrError>)
        requires
            UnifiedGraph::of(design, device).wf(),
            constraints.wf(),
            constraints.groups@.len() + constraints.shared_resources@.len() <= usize::MAX,
            old(workspace).holds(device),
        ensures
            final(workspace).holds(device),
            match result {
                Ok(refiner) => {
                    &&& refiner.wf()
                    &&& refiner.graph == UnifiedGraph::of(design, device)
                    &&& refiner.constraints == constraints
                },
                Err(error) => units_refused(
                    UnifiedGraph::of(design, device),
                    constraints,
                    error,
                ),
            },
    {
        let graph = UnifiedGraph::new(design, device);
        assert(workspace.candidate_cache.holds(UnifiedGraph::of(design, device)));
        let outcome = placement_units_cached(
            &graph,
            constraints,
            &mut workspace.candidate_cache,
            &mut workspace.validated_group_shapes,
        );
        proof {
            assert forall|other: &Design| #[trigger]
                workspace.candidate_cache.holds(UnifiedGraph::of(other, device)) by {
                lemma_cache_ignores_design(
                    graph,
                    UnifiedGraph::of(other, device),
                    &workspace.candidate_cache,
                );
            }
        }
        let units = match outcome {
            Err(error) => {
                return Err(error);
            },
            Ok(units) => units,
        };
        let spatial_indexes = index_units(
            &graph,
            &units,
            &mut workspace.spatial_indexes,
            Ghost(constraints),
        );
        Ok(PlacementRefiner { graph, constraints, units, spatial_indexes })
    }

    /// Physical endpoints of one logical net arc under a placement.
    pub open spec fn arc_ends(&self, placement: Placement, net: NetId, sink: CellPinId) -> Option<
        (BelId, BelPinId, BelId, BelPinId),
    > {
        let design = self.graph.design;
        if net.0 >= design.nets@.len() || sink.0 >= design.pins@.len() {
            None
        } else {
            let driver = design.nets@[net.0 as int].driver;
            if driver.0 >= design.pins@.len() {
                None
            } else {
                match (
                    placement.bel_of(design.pins@[driver.0 as int].cell),
                    placement.bel_of(design.pins@[sink.0 as int].cell),
                ) {
                    (Some(a), Some(b)) => match (
                        choice_pin(self.graph, self.constraints, driver, a),
                        choice_pin(self.graph, self.constraints, sink, b),
                    ) {
                        (Some(p), Some(q)) => Some((a, p, b, q)),
                        _ => None,
                    },
                    _ => None,
                }
            }
        }
    }

    /// Physical endpoints of one logical net arc under a placement.
    pub fn predicted_arc_ends(&self, placement: &Placement, net: NetId, sink: CellPinId) -> (result:
        Option<ArcEnds>)
        requires
            self.wf(),
        ensures
            match result {
                Some(ends) => self.arc_ends(*placement, net, sink) == Some(
                    (ends.driver_bel, ends.driver_pin, ends.sink_bel, ends.sink_pin),
                ),
                None => self.arc_ends(*placement, net, sink) is None,
            },
    {
        let design = self.graph.design();
        if net.0 >= design.nets.len() || sink.0 >= design.pins.len() {
            return None;
        }
        let driver = design.nets[net.0].driver;
        if driver.0 >= design.pins.len() {
            return None;
        }
        let driver_bel = match placement.bel(design.pins[driver.0].cell) {
            Some(bel) => bel,
            None => {
                return None;
            },
        };
        let sink_bel = match placement.bel(design.pins[sink.0].cell) {
            Some(bel) => bel,
            None => {
                return None;
            },
        };
        match (
            candidate_bel_pin(&self.graph, self.constraints, driver, driver_bel),
            candidate_bel_pin(&self.graph, self.constraints, sink, sink_bel),
        ) {
            (Some(driver_pin), Some(sink_pin)) => Some(
                ArcEnds { driver_bel, driver_pin, sink_bel, sink_pin },
            ),
            _ => None,
        }
    }

    /// Predicts one logical net arc under an existing legal placement.
    ///
    /// This resolves every target-selected candidate pin before delegating to
    /// the architecture estimator, so placement-time STA and detailed move
    /// scoring use exactly the same physical endpoint model.
    pub fn predicted_arc_delay_ps<E: PlacementDelayEstimator>(
        &self,
        placement: &Placement,
        net: NetId,
        sink: CellPinId,
        delay_estimator: &E,
    ) -> (result: Option<u64>)
        requires
            self.wf(),
        ensures
            result is Some <==> self.arc_ends(*placement, net, sink) is Some,
            result matches Some(delay) ==> {
                let ends = self.arc_ends(*placement, net, sink)->0;
                call_ensures(
                    E::estimate_delay_ps,
                    (delay_estimator, ends.0, ends.1, ends.2, ends.3),
                    delay,
                )
            },
    {
        match self.predicted_arc_ends(placement, net, sink) {
            Some(ends) => {
                let delay: u64 = delay_estimator.estimate_delay_ps(
                    ends.driver_bel,
                    ends.driver_pin,
                    ends.sink_bel,
                    ends.sink_pin,
                );
                Some(delay)
            },
            None => None,
        }
    }

    /// Refines a legal placement while moving at most the requested units.
    ///
    /// # Errors
    ///
    /// Returns an error if the starting placement is incompatible with the
    /// cached problem.
    pub fn refine_with_net_sink_weights_limited(
        &self,
        placement: Placement,
        sink_weights: &OrderedMap<Connection, u64>,
        sink_budgets: Option<&OrderedMap<Connection, u32>>,
        max_moved_units: usize,
    ) -> (result: Result<Placement, PnrError>)
        requires
            self.wf(),
            sink_weights.wf(),
            sink_budgets matches Some(table) ==> table.wf(),
        ensures
            match result {
                Ok(refined) => {
                    &&& is_refined(
                        self.graph,
                        self.constraints,
                        by_sink(sink_weights, sink_budgets),
                        Some(max_moved_units),
                        Some(placement.bindings@),
                        refined,
                    )
                    &&& units_elsewhere(
                        self.units@,
                        all_placed(placement.bindings@),
                        all_placed(refined.bindings@),
                    ).len() <= max_moved_units
                    &&& max_moved_units == 0 ==> refined.bindings@ == placement.bindings@
                },
                Err(error) => start_refused(*self, placement, error),
            },
    {
        match self.refine_with_net_sink_weights_limited_and_move_peak(
            placement,
            sink_weights,
            sink_budgets,
            max_moved_units,
        ) {
            Ok(pair) => Ok(pair.0),
            Err(error) => Err(error),
        }
    }

    /// Refines a placement and also reports the largest number of units that
    /// were moved by the end of any pass.
    ///
    /// When this peak is below the requested limit, the limit never affected
    /// the result. Timing-closure portfolios can use that fact to skip an
    /// exactly equivalent trial at another still-higher limit.
    ///
    /// # Errors
    ///
    /// Returns the same errors as
    /// [`Self::refine_with_net_sink_weights_limited`].
    pub fn refine_with_net_sink_weights_limited_and_move_peak(
        &self,
        placement: Placement,
        sink_weights: &OrderedMap<Connection, u64>,
        sink_budgets: Option<&OrderedMap<Connection, u32>>,
        max_moved_units: usize,
    ) -> (result: Result<(Placement, usize), PnrError>)
        requires
            self.wf(),
            sink_weights.wf(),
            sink_budgets matches Some(table) ==> table.wf(),
        ensures
            limited_outcome(
                *self,
                placement,
                by_sink(sink_weights, sink_budgets),
                max_moved_units,
                result,
            ),
            match result {
                Ok(pair) => {
                    &&& is_refined_placement(
                        self.graph,
                        self.constraints,
                        by_sink(sink_weights, sink_budgets),
                        Some(max_moved_units),
                        Some(placement.bindings@),
                        pair.0,
                        pair.1 as int,
                    )
                    &&& units_elsewhere(
                        self.units@,
                        all_placed(placement.bindings@),
                        all_placed(pair.0.bindings@),
                    ).len() <= pair.1 <= max_moved_units
                    &&& pair.1 <= self.units@.len()
                    &&& pair.1 == 0 ==> pair.0.bindings@ == placement.bindings@
                },
                Err(error) => start_refused(*self, placement, error),
            },
    {
        let weights = PlacementWeights {
            net_weights: None,
            sink_weights: Some(sink_weights),
            sink_budgets,
        };
        let (_, neighbors) = placement_neighbors(self.graph.design(), weights);
        proof {
            lemma_valid_in_range(self.graph, self.constraints);
        }
        let mut state = match validate_refinement_start(
            &self.graph,
            self.constraints,
            &self.units,
            &self.spatial_indexes,
            &placement,
        ) {
            Err(error) => {
                return Err(error);
            },
            Ok(state) => state,
        };
        let ghost start = state.placed@;
        let peak: usize = refine_placement(
            &self.graph,
            self.constraints,
            &self.units,
            &self.spatial_indexes,
            &neighbors,
            &mut state,
            Some(max_moved_units),
        );
        match finish_standing(&self.graph, self.constraints, &state, Ghost(self.units@)) {
            Err(error) => Err(error),
            Ok(refined) => {
                proof {
                    assert(refines(
                        self.graph,
                        self.constraints,
                        self.units@,
                        neighbors@,
                        Some(max_moved_units),
                        start,
                        all_placed(refined.bindings@),
                        peak as int,
                    ));
                    if peak == 0 {
                        assert(all_placed(refined.bindings@) == all_placed(placement.bindings@));
                        assert(all_placed(refined.bindings@).len() == refined.bindings@.len());
                        assert(all_placed(placement.bindings@).len()
                            == placement.bindings@.len());
                        assert forall|c: int| 0 <= c < refined.bindings@.len() implies refined.bindings@[c]
                            == placement.bindings@[c] by {
                            assert(all_placed(refined.bindings@)[c] == Some(refined.bindings@[c]));
                            assert(all_placed(placement.bindings@)[c] == Some(
                                placement.bindings@[c],
                            ));
                        }
                        assert(refined.bindings@ =~= placement.bindings@);
                    }
                }
                Ok((refined, peak))
            },
        }
    }
}

/// No more units than these stand elsewhere in the later placement.
pub open spec fn moves_at_most(
    graph: UnifiedGraph<'_>,
    constraints: &PlacementConstraints,
    before: Placement,
    after: Placement,
    limit: int,
) -> bool {
    &&& exists|units: Seq<PlacementUnit>| #[trigger]
        are_units(graph, constraints, units) && units_elsewhere(
            units,
            all_placed(before.bindings@),
            all_placed(after.bindings@),
        ).len() <= limit
    &&& limit == 0 ==> after.bindings@ == before.bindings@
}

/// Refines at most `max_moved_units` placement units using per-sink weights.
///
/// Units are considered in deterministic criticality order. Bounding accepted
/// moves keeps incremental routing local instead of invalidating the complete
/// design after every timing update.
///
/// # Errors
///
/// Returns a descriptive error when the supplied placement does not match the
/// design, device, or placement constraints.
pub fn refine_placement_with_net_sink_weights_limited(
    design: &Design,
    device: &Device,
    constraints: &PlacementConstraints,
    placement: Placement,
    sink_weights: &OrderedMap<Connection, u64>,
    sink_budgets: Option<&OrderedMap<Connection, u32>>,
    max_moved_units: usize,
) -> (result: Result<Placement, PnrError>)
    requires
        UnifiedGraph::of(design, device).wf(),
        constraints.wf(),
        constraints.groups@.len() + constraints.shared_resources@.len() <= usize::MAX,
        sink_weights.wf(),
        sink_budgets matches Some(table) ==> table.wf(),
    ensures
        crate::place::refine_outcome(
            UnifiedGraph::of(design, device),
            constraints,
            by_sink(sink_weights, sink_budgets),
            Some(max_moved_units),
            placement,
            result,
        ),
        result matches Ok(refined) ==> moves_at_most(
            UnifiedGraph::of(design, device),
            constraints,
            placement,
            refined,
            max_moved_units as int,
        ),
{
    match PlacementRefiner::new(design, device, constraints) {
        Err(error) => Err(error),
        Ok(refiner) => {
            assert(are_units(
                UnifiedGraph::of(design, device),
                constraints,
                refiner.units@,
            ));
            refiner.refine_with_net_sink_weights_limited(
                placement,
                sink_weights,
                sink_budgets,
                max_moved_units,
            )
        },
    }
}

} // verus!
