//! Proposals of placements in which one unit moves.

use vstd::prelude::*;
use vstd::string::*;

use crate::candidates::lemma_valid_in_range;
use crate::cell_moves::CellMove;
use crate::connection_cost::{
    assignment_connection_excess, assignment_connection_span, find_column,
    PlacementConnectionDelayWorkspace,
};
use crate::connection_move::{is_lifted, unit_moved};
use crate::error::PnrError;
use crate::finish::all_placed;
use crate::legality::{lemma_cleared, row_is_legal};
use crate::model::{BelId, CellId, CellPinId};
use crate::placement::Placement;
use crate::placement_state::{marks_taken, row_is_free, PlacementState};
use crate::projected_cost::projection_fits;
use crate::projection::RouteCapacityProjection;
use crate::ranking::{names_choices, RankedRow};
use crate::refiner::PlacementRefiner;
use crate::start::{starts_legal, validate_refinement_start};
use crate::text::twice_numbered;
use crate::unit_list::is_covered;
use crate::units::row_fits;
use crate::usage_model::{cells_in_range, lemma_with_row, lemma_without_cells, without_cells};

verus! {

/// The move of the unit of a cell.
pub open spec fn is_cell_move(
    refiner: PlacementRefiner<'_>,
    unit: int,
    cell: CellId,
    connections: &[(CellPinId, CellPinId)],
    targets: &[u64],
    delays: &[u32],
    distance: u64,
    step: CellMove<'_>,
) -> bool {
    &&& 0 <= unit < refiner.units@.len()
    &&& step.graph == refiner.graph
    &&& step.constraints == refiner.constraints
    &&& *step.unit == refiner.units@[unit]
    &&& step.column < refiner.units@[unit].cells@.len()
    &&& refiner.units@[unit].cells@[step.column as int] == cell
    &&& step.cell == cell
    &&& step.connections == connections
    &&& step.targets == targets
    &&& step.delays == delays
    &&& step.distance == distance
}

/// The placements follow from taking the chosen rows, one after the other.
pub open spec fn are_proposals(
    refiner: PlacementRefiner<'_>,
    unit: int,
    start: Placement,
    chosen: Seq<RankedRow>,
    proposals: Seq<Placement>,
) -> bool {
    &&& proposals.len() == chosen.len()
    &&& forall|i: int|
        0 <= i < proposals.len() ==> unit_moved(
            refiner,
            unit,
            start,
            chosen[i].choice as int,
            #[trigger] proposals[i],
        )
}

/// What a cell's unit is offered.
pub open spec fn proposed_for(
    refiner: PlacementRefiner<'_>,
    unit: int,
    start: Placement,
    step: CellMove<'_>,
    projection: Option<&RouteCapacityProjection>,
    max_candidates: usize,
    current: Seq<BelId>,
    occupied: Seq<bool>,
    placed: Seq<Option<BelId>>,
    proposals: Seq<Placement>,
) -> bool {
    if step.span(current, placed) is None || (!step.is_broad() && step.excess(current, placed)
        is None) {
        proposals.len() == 0
    } else {
        exists|ranking: Seq<RankedRow>, chosen: Seq<RankedRow>|
            {
                &&& #[trigger] step.is_ranking(current, occupied, placed, ranking)
                &&& #[trigger] step.is_selection(
                    placed,
                    projection,
                    max_candidates,
                    ranking,
                    chosen,
                )
                &&& are_proposals(refiner, unit, start, chosen, proposals)
            }
    }
}

/// What proposing moves of a cell's unit gives.
pub open spec fn proposals_outcome(
    refiner: PlacementRefiner<'_>,
    start: Placement,
    cell: CellId,
    connections: &[(CellPinId, CellPinId)],
    targets: &[u64],
    delays: &[u32],
    projection: Option<&RouteCapacityProjection>,
    distance: u64,
    max_candidates: usize,
    result: Result<Vec<Placement>, PnrError>,
) -> bool {
    if delays@.len() != refiner.graph.device.pips@.len() {
        result matches Err(error) && error is InvalidRoutingCosts
    } else if targets@.len() != connections@.len() {
        result matches Err(error) && error is InvalidPlacement
    } else if !is_covered(refiner.units@, cell) {
        result matches Ok(list) && list@.len() == 0
    } else {
        exists|unit: int|
            {
                &&& 0 <= unit < refiner.units@.len()
                &&& (#[trigger] refiner.units@[unit]).cells@.contains(cell)
                &&& if refiner.units@[unit].choices.count() <= 1 || connections@.len() == 0 {
                    result matches Ok(list) && list@.len() == 0
                } else if !starts_legal(
                    refiner.graph,
                    refiner.constraints,
                    refiner.units@,
                    start.bindings@,
                ) {
                    result matches Err(error) && error is InvalidPlacement
                } else {
                    &&& result is Ok
                    &&& exists|
                        step: CellMove<'_>,
                        current: Seq<BelId>,
                        occupied: Seq<bool>,
                        placed: Seq<Option<BelId>>,
                    |
                        {
                            &&& #[trigger] is_cell_move(
                                refiner,
                                unit,
                                cell,
                                connections,
                                targets,
                                delays,
                                distance,
                                step,
                            )
                            &&& #[trigger] is_lifted(
                                refiner,
                                unit,
                                start,
                                current,
                                occupied,
                                placed,
                            )
                            &&& proposed_for(
                                refiner,
                                unit,
                                start,
                                step,
                                projection,
                                max_candidates,
                                current,
                                occupied,
                                placed,
                                (result->Ok_0)@,
                            )
                        }
                }
            }
    }
}

/// Flags of the same slots are the same.
proof fn lemma_same_flags(a: Seq<bool>, b: Seq<bool>, placed: Seq<Option<BelId>>)
    requires
        a.len() == b.len(),
        a.len() <= usize::MAX,
        marks_taken(a, placed),
        marks_taken(b, placed),
    ensures
        a == b,
{
    assert forall|i: int| 0 <= i < a.len() implies a[i] == b[i] by {
        let bel = BelId(i as usize);
        assert(bel.0 as int == i);
        assert(a[bel.0 as int] == crate::placement_state::is_taken(placed, bel));
        assert(b[bel.0 as int] == crate::placement_state::is_taken(placed, bel));
    }
    assert(a =~= b);
}

impl<'a> PlacementRefiner<'a> {
    /// Finishes a placement for each of the chosen rows.
    fn propose_rows(
        &self,
        index: usize,
        placement: &Placement,
        chosen: &Vec<RankedRow>,
        state: &mut PlacementState,
    ) -> (result: Result<Vec<Placement>, PnrError>)
        requires
            self.wf(),
            index < self.units@.len(),
            starts_legal(self.graph, self.constraints, self.units@, placement.bindings@),
            old(state).wf(self.graph, self.constraints),
            old(state).placed@ == without_cells(
                all_placed(placement.bindings@),
                self.units@[index as int].cells@,
            ),
            names_choices(self.units@[index as int], chosen@),
            forall|i: int|
                0 <= i < chosen@.len() ==> row_is_free(
                    old(state).occupied@,
                    self.units@[index as int].choices.row((#[trigger] chosen@[i]).choice as int),
                ) && row_is_legal(
                    self.graph,
                    self.constraints,
                    old(state).placed@,
                    self.units@[index as int].cells@,
                    self.units@[index as int].choices.row(chosen@[i].choice as int),
                ),
        ensures
            result matches Ok(list) && are_proposals(
                *self,
                index as int,
                *placement,
                chosen@,
                list@,
            ),
    {
        let unit = &self.units[index];
        let ghost placed = state.placed@;
        let ghost flags = state.occupied@;
        let mut proposals: Vec<Placement> = Vec::new();
        let mut at: usize = 0;
        proof {
            lemma_valid_in_range(self.graph, self.constraints);
            assert(self.units@[index as int].wf(self.graph, self.constraints));
            assert(cells_in_range(unit.cells@, self.graph.design.cells@.len() as int));
            lemma_without_cells(all_placed(placement.bindings@), unit.cells@);
        }
        while at < chosen.len()
            invariant
                at <= chosen@.len(),
                self.wf(),
                crate::candidates::bindings_in_range(self.graph, self.constraints),
                index < self.units@.len(),
                *unit == self.units@[index as int],
                unit.wf(self.graph, self.constraints),
                cells_in_range(unit.cells@, self.graph.design.cells@.len() as int),
                starts_legal(self.graph, self.constraints, self.units@, placement.bindings@),
                placed == without_cells(all_placed(placement.bindings@), unit.cells@),
                placed.len() == self.graph.design.cells@.len(),
                forall|k: int|
                    0 <= k < unit.cells@.len() ==> placed[(#[trigger] unit.cells@[k]).0 as int]
                        is None,
                state.wf(self.graph, self.constraints),
                state.placed@ == placed,
                state.occupied@ == flags,
                names_choices(*unit, chosen@),
                forall|i: int|
                    0 <= i < chosen@.len() ==> row_is_free(
                        flags,
                        unit.choices.row((#[trigger] chosen@[i]).choice as int),
                    ) && row_is_legal(
                        self.graph,
                        self.constraints,
                        placed,
                        unit.cells@,
                        unit.choices.row(chosen@[i].choice as int),
                    ),
                proposals@.len() == at,
                forall|i: int|
                    0 <= i < at ==> unit_moved(
                        *self,
                        index as int,
                        *placement,
                        chosen@[i].choice as int,
                        #[trigger] proposals@[i],
                    ),
            decreases chosen@.len() - at,
        {
            let choice: usize = chosen[at].choice;
            assert(chosen@[at as int].choice < unit.choices.count());
            match self.settle_unit(index, choice, state, Ghost(*placement)) {
                Err(error) => {
                    return Err(error);
                },
                Ok(proposal) => {
                    proposals.push(proposal);
                },
            }
            let row = unit.choices.assignment(choice);
            proof {
                assert(row_fits(
                    self.graph,
                    self.constraints,
                    unit.cells@,
                    unit.choices.row(choice as int),
                ));
                assert(self.graph.design.cells.len() == self.graph.design.cells@.len());
                lemma_with_row(placed, unit.cells@, row@);
                lemma_cleared(placed, unit.cells@, row@);
            }
            state.take_row(&self.graph, self.constraints, &unit.cells, &row);
            proof {
                assert(state.occupied.len() == state.occupied@.len());
                assert(crate::placement_state::marks_taken(flags, placed));
                lemma_same_flags(state.occupied@, flags, placed);
            }
            at = at + 1;
        }
        Ok(proposals)
    }

    /// Proposes placements for one cell's unit that reduce the incident
    /// connections' delay excess over their allowance targets locally, or the
    /// physical path span during a broad critical-path move.
    ///
    /// # Errors
    ///
    /// Returns an error when the starting placement or timing table is invalid.
    pub fn refine_cell_connection_delays(
        &self,
        placement: Placement,
        moving_cell: CellId,
        connections: &[(CellPinId, CellPinId)],
        targets_ps: &[u64],
        pip_delays_ps: &[u32],
        capacity_projection: Option<&RouteCapacityProjection>,
        max_move_distance: u64,
        max_candidates: usize,
    ) -> (result: Result<Vec<Placement>, PnrError>)
        requires
            self.wf(),
            capacity_projection matches Some(projection) ==> projection_fits(
                self.graph,
                projection,
            ),
        ensures
            proposals_outcome(
                *self,
                placement,
                moving_cell,
                connections,
                targets_ps,
                pip_delays_ps,
                capacity_projection,
                max_move_distance,
                max_candidates,
                result,
            ),
    {
        let mut workspace = PlacementConnectionDelayWorkspace::new();
        assert(workspace.holds(self.graph.device, pip_delays_ps));
        self.refine_cell_connection_delays_with_cache(
            placement,
            moving_cell,
            connections,
            targets_ps,
            pip_delays_ps,
            capacity_projection,
            max_move_distance,
            max_candidates,
            &mut workspace,
        )
    }

    /// Proposes placements while reusing exact local-route delays computed by
    /// other cells in the same refinement pass.
    ///
    /// `workspace` must be fresh when the device or PIP delay table changes.
    /// Its cached entries depend only on the two endpoint wires and that table,
    /// so placements within one pass may safely share it.
    ///
    /// # Errors
    ///
    /// Returns an error when the starting placement or timing table is invalid.
    pub fn refine_cell_connection_delays_with_cache(
        &self,
        placement: Placement,
        moving_cell: CellId,
        connections: &[(CellPinId, CellPinId)],
        targets_ps: &[u64],
        pip_delays_ps: &[u32],
        capacity_projection: Option<&RouteCapacityProjection>,
        max_move_distance: u64,
        max_candidates: usize,
        workspace: &mut PlacementConnectionDelayWorkspace,
    ) -> (result: Result<Vec<Placement>, PnrError>)
        requires
            self.wf(),
            capacity_projection matches Some(projection) ==> projection_fits(
                self.graph,
                projection,
            ),
            old(workspace).holds(self.graph.device, pip_delays_ps),
        ensures
            final(workspace).holds(self.graph.device, pip_delays_ps),
            proposals_outcome(
                *self,
                placement,
                moving_cell,
                connections,
                targets_ps,
                pip_delays_ps,
                capacity_projection,
                max_move_distance,
                max_candidates,
                result,
            ),
    {
        let device = self.graph.device();
        if pip_delays_ps.len() != device.pips.len() {
            return Err(
                PnrError::InvalidRoutingCosts {
                    reason: twice_numbered(
                        "expected ",
                        pip_delays_ps.len() as u64,
                        " PIP delays, received ",
                        device.pips.len() as u64,
                        "",
                    ),
                },
            );
        }
        if targets_ps.len() != connections.len() {
            return Err(
                crate::finish::refuse_placement(
                    twice_numbered(
                        "expected ",
                        connections.len() as u64,
                        " connection targets, received ",
                        targets_ps.len() as u64,
                        "",
                    ),
                ),
            );
        }
        let index: usize = match self.find_unit(moving_cell) {
            Some(index) => index,
            None => {
                return Ok(Vec::new());
            },
        };
        let unit = &self.units[index];
        assert(is_covered(self.units@, moving_cell)) by {
            assert(self.units@[index as int].cells@.contains(moving_cell));
        }
        if unit.choices.len() <= 1 || connections.len() == 0 {
            return Ok(Vec::new());
        }
        proof {
            lemma_valid_in_range(self.graph, self.constraints);
            assert(self.units@[index as int].wf(self.graph, self.constraints));
        }
        let mut state = match validate_refinement_start(
            &self.graph,
            self.constraints,
            &self.units,
            &self.spatial_indexes,
            &placement,
        ) {
            Err(error) => {
                return Err(error);
            },
            Ok(state) => state,
        };
        let column: usize = match find_column(&unit.cells, moving_cell) {
            Some(column) => column,
            None => {
                return Ok(Vec::new());
            },
        };
        let step = CellMove {
            graph: self.graph,
            constraints: self.constraints,
            unit,
            column,
            cell: moving_cell,
            connections,
            targets: targets_ps,
            delays: pip_delays_ps,
            distance: max_move_distance,
        };
        let current = self.lift_unit(index, &placement, &mut state);
        let ghost placed = state.placed@;
        let ghost flags = state.occupied@;
        proof {
            assert(is_cell_move(
                *self,
                index as int,
                moving_cell,
                connections,
                targets_ps,
                pip_delays_ps,
                max_move_distance,
                step,
            ));
            assert(is_lifted(*self, index as int, placement, current@, flags, placed));
        }
        let mut current_excess: Option<u64> = None;
        if max_move_distance <= 2 {
            current_excess = assignment_connection_excess(
                &self.graph,
                self.constraints,
                unit,
                &current,
                moving_cell,
                connections,
                targets_ps,
                &state.placed,
                pip_delays_ps,
                workspace,
            );
        }
        let current_span: u64 = match assignment_connection_span(
            &self.graph,
            unit,
            &current,
            moving_cell,
            connections,
            &state.placed,
        ) {
            Some(span) => span,
            None => {
                assert(step.span(current@, placed) is None);
                return Ok(Vec::new());
            },
        };
        if max_move_distance <= 2 && current_excess.is_none() {
            assert(step.excess(current@, placed) is None);
            return Ok(Vec::new());
        }
        assert(self.spatial_indexes@[index as int].indexes(
            self.units@[index as int].choices,
            self.graph.device,
        ));
        let ranking = step.rank_rows(
            &self.spatial_indexes[index],
            &current,
            current_span,
            current_excess,
            &mut state,
            workspace,
        );
        let ghost ranked = ranking@;
        let chosen = step.select_rows(
            ranking,
            &state.placed,
            capacity_projection,
            max_candidates,
        );
        proof {
            assert forall|i: int| 0 <= i < chosen@.len() implies row_is_free(
                flags,
                unit.choices.row((#[trigger] chosen@[i]).choice as int),
            ) && row_is_legal(
                self.graph,
                self.constraints,
                placed,
                unit.cells@,
                unit.choices.row(chosen@[i].choice as int),
            ) by {
                assert(chosen@.contains(chosen@[i]));
                let k = choose|k: int|
                    0 <= k < ranked.len() && (#[trigger] ranked[k]).choice == chosen@[i].choice;
                assert(step.is_candidate(current@, flags, placed, ranked[k].choice as int));
            }
        }
        let result = self.propose_rows(index, &placement, &chosen, &mut state);
        proof {
            assert(step.is_ranking(current@, flags, placed, ranked));
            assert(step.is_selection(
                placed,
                capacity_projection,
                max_candidates,
                ranked,
                chosen@,
            ));
            assert(proposed_for(
                *self,
                index as int,
                placement,
                step,
                capacity_projection,
                max_candidates,
                current@,
                flags,
                placed,
                (result->Ok_0)@,
            ));
        }
        result
    }
}

} // verus!
