//! Moves of one unit that shorten one of its connections.

use vstd::prelude::*;
use vstd::string::*;

use crate::candidates::{
    bindings_in_range, can_hold, candidate_pin_wire, choice_wire, lemma_valid_in_range,
};
use crate::connection_cost::{find_column, local_connection_delay, local_delay};
use crate::device::UnifiedGraph;
use crate::error::PnrError;
use crate::finish::all_placed;
use crate::legality::row_is_legal;
use crate::model::{BelId, CellId, CellPinId, WireId};
use crate::ordered::{lemma_lex_irreflexive, lemma_lex_transitive, lex_before, lex_precedes, same_keys};
use crate::placement::Placement;
use crate::placement_constraints::PlacementConstraints;
use crate::placement_state::{row_is_free, PlacementState};
use crate::refine::{current_row, lemma_others_stand};
use crate::refiner::PlacementRefiner;
use crate::row_cost::{bel_point, has_cell};
use crate::spatial::{begins_within, spatial_choices_within};
use crate::standing::{finish_standing, is_placement_of};
use crate::start::{lemma_unit_on_device, starts_legal, validate_refinement_start};
use crate::text::{numbered, twice_numbered};
use crate::unit_list::is_covered;
use crate::units::{row_fits, PlacementUnit};
use crate::usage_model::{cells_in_range, lemma_without_cells, with_row, without_cells};

verus! {

/// A connection of which one end moves with its unit.
#[derive(Clone, Copy)]
pub struct ConnectionMove<'a> {
    /// Design and device.
    pub graph: UnifiedGraph<'a>,
    /// Placement rules.
    pub constraints: &'a PlacementConstraints,
    /// Unit that moves.
    pub unit: &'a PlacementUnit,
    /// Column of the moving cell in the unit.
    pub column: usize,
    /// Pin that moves.
    pub moving_pin: CellPinId,
    /// Wire of the other end.
    pub fixed_wire: WireId,
    /// Whether the driver moves.
    pub move_driver: bool,
    /// Delay of each PIP.
    pub delays: &'a [u32],
}

/// The row is another than the current one, near it, free, and legal.
pub open spec fn opens(
    graph: UnifiedGraph<'_>,
    constraints: &PlacementConstraints,
    unit: PlacementUnit,
    column: int,
    current: Seq<BelId>,
    occupied: Seq<bool>,
    placed: Seq<Option<BelId>>,
    distance: int,
    index: int,
) -> bool {
    let device = graph.device;
    let row = unit.choices.row(index);
    &&& begins_within(unit.choices, device, index, bel_point(device, current[0]), distance)
    &&& row != current
    &&& row_is_free(occupied, row)
    &&& bel_point(device, row[column]).distance(bel_point(device, current[column])) <= distance
    &&& row_is_legal(graph, constraints, placed, unit.cells@, row)
}

/// Whether the row is open.
pub(crate) fn row_opens(
    graph: &UnifiedGraph<'_>,
    constraints: &PlacementConstraints,
    unit: &PlacementUnit,
    column: usize,
    index: usize,
    current: &Vec<BelId>,
    max_distance: u64,
    state: &mut PlacementState,
) -> (result: bool)
    requires
        graph.wf(),
        constraints.wf(),
        bindings_in_range(*graph, constraints),
        unit.wf(*graph, constraints),
        column < unit.cells@.len(),
        index < unit.choices.count(),
        current@.len() == unit.cells@.len(),
        forall|k: int|
            0 <= k < current@.len() ==> (#[trigger] current@[k]).0 < graph.device.bels@.len(),
        begins_within(
            unit.choices,
            graph.device,
            index as int,
            bel_point(graph.device, current@[0]),
            max_distance as int,
        ),
        old(state).wf(*graph, constraints),
        forall|k: int|
            0 <= k < unit.cells@.len() ==> old(state).placed@[(#[trigger] unit.cells@[k]).0 as int]
                is None,
    ensures
        final(state).wf(*graph, constraints),
        final(state).placed == old(state).placed,
        final(state).occupied == old(state).occupied,
        result == opens(
            *graph,
            constraints,
            *unit,
            column as int,
            current@,
            old(state).occupied@,
            old(state).placed@,
            max_distance as int,
            index as int,
        ),
{
    let device = graph.device();
    let row = unit.choices.assignment(index);
    proof {
        assert(row_fits(*graph, constraints, unit.cells@, unit.choices.row(index as int)));
        assert(can_hold(*graph, constraints, unit.cells@[column as int], row@[column as int]));
        assert(current@[column as int].0 < device.bels@.len());
        assert(cells_in_range(unit.cells@, graph.design.cells@.len() as int));
    }
    if same_keys(&row, current) || !state.is_free(&row) {
        return false;
    }
    let point = device.bels[row[column].0].point;
    let near = device.bels[current[column].0].point;
    if point.manhattan(near) > max_distance {
        return false;
    }
    state.is_legal(graph, constraints, &unit.cells, &row)
}

impl<'a> ConnectionMove<'a> {
    /// The parts fit each other.
    pub open spec fn wf(&self) -> bool {
        &&& self.graph.wf()
        &&& self.constraints.wf()
        &&& bindings_in_range(self.graph, self.constraints)
        &&& self.unit.wf(self.graph, self.constraints)
        &&& self.column < self.unit.cells@.len()
        &&& self.fixed_wire.0 < self.graph.device.wires@.len()
        &&& self.delays@.len() == self.graph.device.pips@.len()
    }

    /// Delay of the connection with the moving end on a BEL.
    pub open spec fn delay_on(&self, bel: BelId) -> Option<u64> {
        match choice_wire(self.graph, self.constraints, self.moving_pin, bel) {
            None => None,
            Some(wire) => if self.move_driver {
                local_delay(self.graph.device, self.delays, wire, self.fixed_wire)
            } else {
                local_delay(self.graph.device, self.delays, self.fixed_wire, wire)
            },
        }
    }

    /// Delay of the connection with the unit on a row.
    pub open spec fn row_delay(&self, index: int) -> Option<u64> {
        self.delay_on(self.unit.choices.row(index)[self.column as int])
    }

    /// Delay of the connection with the moving end on a BEL.
    fn find_delay(&self, bel: BelId) -> (result: Option<u64>)
        requires
            self.wf(),
        ensures
            result == self.delay_on(bel),
    {
        match candidate_pin_wire(&self.graph, self.constraints, self.moving_pin, bel) {
            None => None,
            Some(wire) => if self.move_driver {
                local_connection_delay(&self.graph, wire, self.fixed_wire, self.delays)
            } else {
                local_connection_delay(&self.graph, self.fixed_wire, wire, self.delays)
            },
        }
    }

    /// The row is another than the current one, near it, free, and legal.
    pub open spec fn is_open(
        &self,
        current: Seq<BelId>,
        occupied: Seq<bool>,
        placed: Seq<Option<BelId>>,
        distance: int,
        index: int,
    ) -> bool {
        opens(
            self.graph,
            self.constraints,
            *self.unit,
            self.column as int,
            current,
            occupied,
            placed,
            distance,
            index,
        )
    }

    /// The row is open and shortens the connection.
    pub open spec fn improves(
        &self,
        current: Seq<BelId>,
        occupied: Seq<bool>,
        placed: Seq<Option<BelId>>,
        distance: int,
        limit: u64,
        index: int,
    ) -> bool {
        &&& self.is_open(current, occupied, placed, distance, index)
        &&& self.row_delay(index) matches Some(delay) && delay < limit
    }

    /// The one row is shorter, or comes first at the same delay.
    pub open spec fn is_better(&self, a: int, b: int) -> bool {
        ||| self.row_delay(a)->0 < self.row_delay(b)->0
        ||| self.row_delay(a)->0 == self.row_delay(b)->0 && lex_before(
            self.unit.choices.row(a),
            self.unit.choices.row(b),
        )
    }

    /// The row improves, and no other that does is better.
    pub open spec fn is_best(
        &self,
        current: Seq<BelId>,
        occupied: Seq<bool>,
        placed: Seq<Option<BelId>>,
        distance: int,
        limit: u64,
        index: int,
    ) -> bool {
        &&& self.improves(current, occupied, placed, distance, limit, index)
        &&& forall|other: int| #[trigger]
            self.improves(current, occupied, placed, distance, limit, other) ==> !self.is_better(
                other,
                index,
            )
    }

    /// Best row that shortens the connection.
    fn find_best(
        &self,
        spatial: &crate::spatial::SpatialChoiceIndex,
        current: &Vec<BelId>,
        current_delay: u64,
        max_distance: u64,
        state: &mut PlacementState,
    ) -> (result: Option<usize>)
        requires
            self.wf(),
            spatial.indexes(self.unit.choices, self.graph.device),
            current@.len() == self.unit.cells@.len(),
            forall|k: int|
                0 <= k < current@.len() ==> (#[trigger] current@[k]).0
                    < self.graph.device.bels@.len(),
            old(state).wf(self.graph, self.constraints),
            forall|k: int|
                0 <= k < self.unit.cells@.len() ==> old(state).placed@[(
                #[trigger] self.unit.cells@[k]).0 as int] is None,
        ensures
            final(state).wf(self.graph, self.constraints),
            final(state).placed == old(state).placed,
            final(state).occupied == old(state).occupied,
            match result {
                Some(index) => self.is_best(
                    current@,
                    old(state).occupied@,
                    old(state).placed@,
                    max_distance as int,
                    current_delay,
                    index as int,
                ),
                None => forall|other: int| !#[trigger]
                    self.improves(
                        current@,
                        old(state).occupied@,
                        old(state).placed@,
                        max_distance as int,
                        current_delay,
                        other,
                    ),
            },
    {
        let device = self.graph.device();
        let ghost placed = state.placed@;
        let ghost flags = state.occupied@;
        proof {
            lemma_unit_on_device(self.graph, self.constraints, *self.unit);
            assert(current@[0].0 < device.bels@.len());
        }
        let center = device.bels[current[0].0].point;
        let found = spatial_choices_within(
            spatial,
            center,
            max_distance,
            device,
            Ghost(self.unit.choices),
        );
        let ghost list = found.ordered();
        let mut best: Option<(u64, usize)> = None;
        let mut at: usize = 0;
        while at < found.len()
            invariant
                at <= list.len(),
                list == found.ordered(),
                found.wf(),
                self.wf(),
                device == self.graph.device,
                center == bel_point(device, current@[0]),
                forall|i: usize| #[trigger]
                    found@.contains(i) <==> begins_within(
                        self.unit.choices,
                        device,
                        i as int,
                        center,
                        max_distance as int,
                    ),
                current@.len() == self.unit.cells@.len(),
                forall|k: int|
                    0 <= k < current@.len() ==> (#[trigger] current@[k]).0 < device.bels@.len(),
                state.wf(self.graph, self.constraints),
                state.placed == old(state).placed,
                state.occupied == old(state).occupied,
                placed == state.placed@,
                flags == state.occupied@,
                forall|k: int|
                    0 <= k < self.unit.cells@.len() ==> placed[(
                    #[trigger] self.unit.cells@[k]).0 as int] is None,
                match best {
                    None => forall|i: int|
                        0 <= i < at ==> !self.improves(
                            current@,
                            flags,
                            placed,
                            max_distance as int,
                            current_delay,
                            (#[trigger] list[i]) as int,
                        ),
                    Some(pair) => {
                        &&& self.improves(
                            current@,
                            flags,
                            placed,
                            max_distance as int,
                            current_delay,
                            pair.1 as int,
                        )
                        &&& self.row_delay(pair.1 as int) == Some(pair.0)
                        &&& forall|i: int|
                            0 <= i < at && self.improves(
                                current@,
                                flags,
                                placed,
                                max_distance as int,
                                current_delay,
                                (#[trigger] list[i]) as int,
                            ) ==> !self.is_better(list[i] as int, pair.1 as int)
                    },
                },
            decreases list.len() - at,
        {
            let choice: usize = found.at(at);
            proof {
                assert(list.contains(list[at as int]));
                found.membership(choice);
                assert(found@.contains(choice));
            }
            if row_opens(
                &self.graph,
                self.constraints,
                self.unit,
                self.column,
                choice,
                current,
                max_distance,
                state,
            ) {
                let row = self.unit.choices.assignment(choice);
                proof {
                    assert(row_fits(
                        self.graph,
                        self.constraints,
                        self.unit.cells@,
                        self.unit.choices.row(choice as int),
                    ));
                }
                if let Some(delay) = self.find_delay(row[self.column]) {
                    if delay < current_delay {
                        let better = match best {
                            None => true,
                            Some(pair) => delay < pair.0 || (delay == pair.0 && lex_precedes(
                                &row,
                                &self.unit.choices.assignment(pair.1),
                            )),
                        };
                        proof {
                            assert(self.improves(
                                current@,
                                flags,
                                placed,
                                max_distance as int,
                                current_delay,
                                choice as int,
                            ));
                            lemma_lex_irreflexive(self.unit.choices.row(choice as int));
                            if let Some(pair) = best {
                                assert(better == self.is_better(choice as int, pair.1 as int));
                                assert forall|i: int|
                                    0 <= i < at && self.improves(
                                        current@,
                                        flags,
                                        placed,
                                        max_distance as int,
                                        current_delay,
                                        (#[trigger] list[i]) as int,
                                    ) && better implies !self.is_better(
                                    list[i] as int,
                                    choice as int,
                                ) by {
                                    if self.is_better(list[i] as int, choice as int) {
                                        self.lemma_better_transitive(
                                            list[i] as int,
                                            choice as int,
                                            pair.1 as int,
                                        );
                                    }
                                }
                            }
                        }
                        if better {
                            best = Some((delay, choice));
                        }
                    }
                }
            }
            at = at + 1;
        }
        proof {
            assert forall|other: int| #[trigger]
                self.improves(
                    current@,
                    flags,
                    placed,
                    max_distance as int,
                    current_delay,
                    other,
                ) implies exists|i: int| 0 <= i < list.len() && #[trigger] list[i] == other by {
                assert(begins_within(
                    self.unit.choices,
                    device,
                    other,
                    center,
                    max_distance as int,
                ));
                let number = self.unit.choices.count();
                assert(number <= usize::MAX) by {
                    match self.unit.choices {
                        crate::units::PlacementChoices::Shared(table) => {
                            assert(table.len() == table@.len());
                        },
                        crate::units::PlacementChoices::SingleCell(single) => {
                            assert(single.len() == single@.len());
                        },
                    }
                }
                let choice = other as usize;
                assert(choice as int == other);
                assert(found@.contains(choice));
                found.membership(choice);
                let i = list.index_of(choice);
                assert(list[i] == other);
            }
        }
        match best {
            Some(pair) => Some(pair.1),
            None => None,
        }
    }

    /// The order of rows is transitive.
    proof fn lemma_better_transitive(&self, a: int, b: int, c: int)
        requires
            self.is_better(a, b),
            self.is_better(b, c),
        ensures
            self.is_better(a, c),
    {
        if self.row_delay(a)->0 == self.row_delay(b)->0 && self.row_delay(b)->0 == self.row_delay(
            c,
        )->0 {
            lemma_lex_transitive(
                self.unit.choices.row(a),
                self.unit.choices.row(b),
                self.unit.choices.row(c),
            );
        }
    }
}

/// The unit stood on one row and the placement follows from taking another.
pub open spec fn unit_moved(
    refiner: PlacementRefiner<'_>,
    unit: int,
    start: Placement,
    index: int,
    placement: Placement,
) -> bool {
    let cells = refiner.units@[unit].cells@;
    is_placement_of(
        refiner.graph,
        refiner.constraints,
        with_row(
            without_cells(all_placed(start.bindings@), cells),
            cells,
            refiner.units@[unit].choices.row(index),
        ),
        placement,
    )
}

/// The move of the unit of one end of the connection.
pub open spec fn is_move(
    refiner: PlacementRefiner<'_>,
    unit: int,
    start: Placement,
    driver: CellPinId,
    sink: CellPinId,
    move_driver: bool,
    delays: &[u32],
    step: ConnectionMove<'_>,
) -> bool {
    let pins = refiner.graph.design.pins@;
    let moving = if move_driver {
        driver
    } else {
        sink
    };
    let fixed = if move_driver {
        sink
    } else {
        driver
    };
    &&& 0 <= unit < refiner.units@.len()
    &&& step.graph == refiner.graph
    &&& step.constraints == refiner.constraints
    &&& *step.unit == refiner.units@[unit]
    &&& step.column < refiner.units@[unit].cells@.len()
    &&& refiner.units@[unit].cells@[step.column as int] == pins[moving.0 as int].cell
    &&& step.moving_pin == moving
    &&& step.move_driver == move_driver
    &&& step.delays == delays
    &&& choice_wire(
        refiner.graph,
        refiner.constraints,
        fixed,
        start.bindings@[pins[fixed.0 as int].cell.0 as int],
    ) == Some(step.fixed_wire)
}

/// The unit's current row and the slots without it.
pub open spec fn is_lifted(
    refiner: PlacementRefiner<'_>,
    unit: int,
    start: Placement,
    current: Seq<BelId>,
    occupied: Seq<bool>,
    placed: Seq<Option<BelId>>,
) -> bool {
    let cells = refiner.units@[unit].cells@;
    &&& current.len() == cells.len()
    &&& forall|k: int|
        0 <= k < cells.len() ==> #[trigger] current[k] == start.bindings@[cells[k].0 as int]
    &&& placed == without_cells(all_placed(start.bindings@), cells)
    &&& occupied.len() == refiner.graph.device.bels@.len()
    &&& crate::placement_state::marks_taken(occupied, placed)
}

/// What offering the unit of one end of a connection a move gives.
pub open spec fn connection_outcome(
    refiner: PlacementRefiner<'_>,
    start: Placement,
    driver: CellPinId,
    sink: CellPinId,
    move_driver: bool,
    delays: &[u32],
    distance: u64,
    result: Result<Option<Placement>, PnrError>,
) -> bool {
    let pins = refiner.graph.design.pins@;
    if delays@.len() != refiner.graph.device.pips@.len() {
        result matches Err(error) && error is InvalidRoutingCosts
    } else if driver.0 >= pins.len() || sink.0 >= pins.len() {
        result matches Err(error) && error is InvalidPlacement
    } else {
        let moving = pins[if move_driver {
            driver.0 as int
        } else {
            sink.0 as int
        }].cell;
        let fixed = pins[if move_driver {
            sink.0 as int
        } else {
            driver.0 as int
        }].cell;
        exists|unit: int|
            {
                &&& 0 <= unit < refiner.units@.len()
                &&& (#[trigger] refiner.units@[unit]).cells@.contains(moving)
                &&& if refiner.units@[unit].cells@.contains(fixed)
                    || refiner.units@[unit].choices.count() <= 1 {
                    result matches Ok(None)
                } else if !starts_legal(
                    refiner.graph,
                    refiner.constraints,
                    refiner.units@,
                    start.bindings@,
                ) {
                    result matches Err(error) && error is InvalidPlacement
                } else {
                    exists|
                        step: ConnectionMove<'_>,
                        current: Seq<BelId>,
                        occupied: Seq<bool>,
                        placed: Seq<Option<BelId>>,
                    |
                        {
                            &&& #[trigger] is_move(
                                refiner,
                                unit,
                                start,
                                driver,
                                sink,
                                move_driver,
                                delays,
                                step,
                            )
                            &&& #[trigger] is_lifted(
                                refiner,
                                unit,
                                start,
                                current,
                                occupied,
                                placed,
                            )
                            &&& match step.delay_on(current[step.column as int]) {
                                None => result matches Ok(None),
                                Some(limit) => match result {
                                    Ok(Some(placement)) => exists|index: int|
                                        {
                                            &&& #[trigger] step.is_best(
                                                current,
                                                occupied,
                                                placed,
                                                distance as int,
                                                limit,
                                                index,
                                            )
                                            &&& unit_moved(refiner, unit, start, index, placement)
                                        },
                                    Ok(None) => forall|other: int| !#[trigger]
                                        step.improves(
                                            current,
                                            occupied,
                                            placed,
                                            distance as int,
                                            limit,
                                            other,
                                        ),
                                    Err(_) => false,
                                },
                            }
                        }
                }
            }
    }
}

impl<'a> PlacementRefiner<'a> {
    /// Unit of a cell.
    pub(crate) fn find_unit(&self, cell: CellId) -> (result: Option<usize>)
        ensures
            match result {
                Some(index) => index < self.units@.len()
                    && self.units@[index as int].cells@.contains(cell),
                None => !is_covered(self.units@, cell),
            },
    {
        let mut index: usize = 0;
        while index < self.units.len()
            invariant
                index <= self.units@.len(),
                forall|u: int|
                    0 <= u < index ==> !(#[trigger] self.units@[u]).cells@.contains(cell),
            decreases self.units@.len() - index,
        {
            if has_cell(&self.units[index].cells, cell) {
                return Some(index);
            }
            index = index + 1;
        }
        None
    }

    /// In a legal placement every pin has a wire.
    pub proof fn lemma_pin_has_wire(&self, bindings: Seq<BelId>, pin: CellPinId)
        requires
            self.wf(),
            starts_legal(self.graph, self.constraints, self.units@, bindings),
            pin.0 < self.graph.design.pins@.len(),
        ensures
            self.graph.design.pins@[pin.0 as int].cell.0 < bindings.len(),
            choice_wire(
                self.graph,
                self.constraints,
                pin,
                bindings[self.graph.design.pins@[pin.0 as int].cell.0 as int],
            ) is Some,
    {
        let cell = self.graph.design.pins@[pin.0 as int].cell;
        let placed = all_placed(bindings);
        assert(self.graph.design.cells.len() == self.graph.design.cells@.len());
        crate::standing::lemma_standing_cells(self.graph, self.constraints, self.units@, placed);
        assert(placed[cell.0 as int] == Some(bindings[cell.0 as int]));
        assert(CellId(cell.0 as int as usize) == cell);
        assert(CellPinId(pin.0 as int as usize) == pin);
        let pins = self.graph.design.cells@[cell.0 as int].pins@;
        assert(pins.contains(pin));
        let k = pins.index_of(pin);
        assert(can_hold(self.graph, self.constraints, cell, bindings[cell.0 as int]));
        assert(crate::candidates::choice_pin(
            self.graph,
            self.constraints,
            self.graph.design.cells@[cell.0 as int].pins@[k],
            bindings[cell.0 as int],
        ) is Some);
        crate::candidates::lemma_choice_pin_range(
            self.graph,
            self.constraints,
            pin,
            bindings[cell.0 as int],
        );
    }

    /// Takes a unit out of a legal placement.
    pub(crate) fn lift_unit(
        &self,
        index: usize,
        placement: &Placement,
        state: &mut PlacementState,
    ) -> (result: Vec<BelId>)
        requires
            self.wf(),
            index < self.units@.len(),
            old(state).wf(self.graph, self.constraints),
            starts_legal(self.graph, self.constraints, self.units@, placement.bindings@),
            old(state).placed@ == all_placed(placement.bindings@),
        ensures
            final(state).wf(self.graph, self.constraints),
            is_lifted(
                *self,
                index as int,
                *placement,
                result@,
                final(state).occupied@,
                final(state).placed@,
            ),
            forall|k: int|
                0 <= k < self.units@[index as int].cells@.len() ==> final(state).placed@[(
                #[trigger] self.units@[index as int].cells@[k]).0 as int] is None,
            forall|k: int|
                0 <= k < result@.len() ==> (#[trigger] result@[k]).0
                    < self.graph.device.bels@.len(),
    {
        let unit = &self.units[index];
        let ghost before = state.placed@;
        proof {
            lemma_valid_in_range(self.graph, self.constraints);
            assert(self.units@[index as int].wf(self.graph, self.constraints));
            assert forall|k: int| 0 <= k < unit.cells@.len() implies (
            #[trigger] unit.cells@[k]).0 < before.len() && before[unit.cells@[k].0 as int]
                is Some by {
                assert(before[unit.cells@[k].0 as int] == Some(
                    placement.bindings@[unit.cells@[k].0 as int],
                ));
            }
        }
        let current = current_row(unit, &state.placed);
        proof {
            assert(cells_in_range(unit.cells@, self.graph.design.cells@.len() as int));
            assert forall|k: int| 0 <= k < current@.len() implies #[trigger] current@[k]
                == placement.bindings@[unit.cells@[k].0 as int] by {
                assert(before[unit.cells@[k].0 as int] == Some(current@[k]));
            }
            assert(self.graph.design.cells.len() == self.graph.design.cells@.len());
        }
        state.take_row(&self.graph, self.constraints, &unit.cells, &current);
        proof {
            lemma_without_cells(before, unit.cells@);
            assert forall|k: int| 0 <= k < current@.len() implies (#[trigger] current@[k]).0
                < self.graph.device.bels@.len() by {
                assert(unit.cells@[k].0 < placement.bindings@.len());
            }
        }
        current
    }

    /// Puts a lifted unit on one of its rows and finishes the placement.
    pub(crate) fn settle_unit(
        &self,
        index: usize,
        choice: usize,
        state: &mut PlacementState,
        Ghost(start): Ghost<Placement>,
    ) -> (result: Result<Placement, PnrError>)
        requires
            self.wf(),
            index < self.units@.len(),
            choice < self.units@[index as int].choices.count(),
            old(state).wf(self.graph, self.constraints),
            starts_legal(self.graph, self.constraints, self.units@, start.bindings@),
            old(state).placed@ == without_cells(
                all_placed(start.bindings@),
                self.units@[index as int].cells@,
            ),
            row_is_free(
                old(state).occupied@,
                self.units@[index as int].choices.row(choice as int),
            ),
            row_is_legal(
                self.graph,
                self.constraints,
                old(state).placed@,
                self.units@[index as int].cells@,
                self.units@[index as int].choices.row(choice as int),
            ),
        ensures
            result matches Ok(placement) && unit_moved(
                *self,
                index as int,
                start,
                choice as int,
                placement,
            ),
            final(state).wf(self.graph, self.constraints),
            final(state).placed@ == with_row(
                old(state).placed@,
                self.units@[index as int].cells@,
                self.units@[index as int].choices.row(choice as int),
            ),
    {
        let unit = &self.units[index];
        let row = unit.choices.assignment(choice);
        let ghost whole = all_placed(start.bindings@);
        proof {
            lemma_valid_in_range(self.graph, self.constraints);
            assert(self.units@[index as int].wf(self.graph, self.constraints));
            assert(row_fits(
                self.graph,
                self.constraints,
                unit.cells@,
                unit.choices.row(choice as int),
            ));
            assert(cells_in_range(unit.cells@, self.graph.design.cells@.len() as int));
            lemma_without_cells(whole, unit.cells@);
            lemma_others_stand(
                self.graph,
                self.constraints,
                self.units@,
                whole,
                index as int,
                choice as int,
            );
        }
        state.put_row(&self.graph, self.constraints, &unit.cells, &row);
        finish_standing(&self.graph, self.constraints, state, Ghost(self.units@))
    }

    /// Moves one endpoint placement unit to an unoccupied nearby assignment
    /// only when the characterized unloaded connection gets shorter.
    ///
    /// This is a deterministic detailed-placement primitive. The caller must
    /// reroute and run STA before accepting the proposal because congestion
    /// and other connections of the moved unit are deliberately excluded.
    ///
    /// # Errors
    ///
    /// Returns an error when the starting placement or timing table is invalid.
    pub fn refine_connection_delay(
        &self,
        placement: Placement,
        driver_pin: CellPinId,
        sink_pin: CellPinId,
        move_driver: bool,
        pip_delays_ps: &[u32],
        max_move_distance: u64,
    ) -> (result: Result<Option<Placement>, PnrError>)
        requires
            self.wf(),
        ensures
            connection_outcome(
                *self,
                placement,
                driver_pin,
                sink_pin,
                move_driver,
                pip_delays_ps,
                max_move_distance,
                result,
            ),
    {
        let design = self.graph.design();
        let device = self.graph.device();
        if pip_delays_ps.len() != device.pips.len() {
            return Err(
                PnrError::InvalidRoutingCosts {
                    reason: twice_numbered(
                        "expected ",
                        device.pips.len() as u64,
                        " PIP delays, received ",
                        pip_delays_ps.len() as u64,
                        "",
                    ),
                },
            );
        }
        if driver_pin.0 >= design.pins.len() {
            return Err(
                crate::finish::refuse_placement(
                    numbered("connection driver pin ", driver_pin.0, " does not exist"),
                ),
            );
        }
        if sink_pin.0 >= design.pins.len() {
            return Err(
                crate::finish::refuse_placement(
                    numbered("connection sink pin ", sink_pin.0, " does not exist"),
                ),
            );
        }
        let moving_pin = if move_driver {
            driver_pin
        } else {
            sink_pin
        };
        let fixed_pin = if move_driver {
            sink_pin
        } else {
            driver_pin
        };
        let moving_cell = design.pins[moving_pin.0].cell;
        let fixed_cell = design.pins[fixed_pin.0].cell;
        let index: usize = match self.find_unit(moving_cell) {
            Some(index) => index,
            None => {
                assert(is_covered(self.units@, moving_cell));
                return Ok(None);
            },
        };
        let unit = &self.units[index];
        if has_cell(&unit.cells, fixed_cell) || unit.choices.len() <= 1 {
            return Ok(None);
        }
        proof {
            lemma_valid_in_range(self.graph, self.constraints);
        }
        let mut state = match validate_refinement_start(
            &self.graph,
            self.constraints,
            &self.units,
            &self.spatial_indexes,
            &placement,
        ) {
            Err(error) => {
                return Err(error);
            },
            Ok(state) => state,
        };
        proof {
            self.lemma_pin_has_wire(placement.bindings@, fixed_pin);
            assert(self.units@[index as int].wf(self.graph, self.constraints));
        }
        let fixed_bel = placement.bindings[fixed_cell.0];
        let column: usize = match find_column(&unit.cells, moving_cell) {
            Some(column) => column,
            None => {
                return Ok(None);
            },
        };
        let fixed_wire = match candidate_pin_wire(
            &self.graph,
            self.constraints,
            fixed_pin,
            fixed_bel,
        ) {
            Some(wire) => wire,
            None => {
                return Ok(None);
            },
        };
        let step = ConnectionMove {
            graph: self.graph,
            constraints: self.constraints,
            unit,
            column,
            moving_pin,
            fixed_wire,
            move_driver,
            delays: pip_delays_ps,
        };
        let current = self.lift_unit(index, &placement, &mut state);
        let ghost lifted = state;
        proof {
            assert(is_move(
                *self,
                index as int,
                placement,
                driver_pin,
                sink_pin,
                move_driver,
                pip_delays_ps,
                step,
            ));
            assert(is_lifted(
                *self,
                index as int,
                placement,
                current@,
                lifted.occupied@,
                lifted.placed@,
            ));
        }
        let current_delay: u64 = match step.find_delay(current[column]) {
            Some(delay) => delay,
            None => {
                return Ok(None);
            },
        };
        assert(self.spatial_indexes@[index as int].indexes(
            self.units@[index as int].choices,
            self.graph.device,
        ));
        match step.find_best(
            &self.spatial_indexes[index],
            &current,
            current_delay,
            max_move_distance,
            &mut state,
        ) {
            None => Ok(None),
            Some(choice) => {
                assert(step.is_best(
                    current@,
                    lifted.occupied@,
                    lifted.placed@,
                    max_move_distance as int,
                    current_delay,
                    choice as int,
                ));
                match self.settle_unit(index, choice, &mut state, Ghost(placement)) {
                    Ok(moved) => Ok(Some(moved)),
                    Err(error) => Err(error),
                }
            },
        }
    }
}

} // verus!
