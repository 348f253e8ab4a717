//! Local refinement of a placement: units move to nearby rows of lower cost.

use std::sync::Arc;

use vstd::prelude::*;

use crate::candidates::{bindings_in_range, can_hold};
use crate::cost::{clip_u64, saturating_product};
use crate::device::{Device, UnifiedGraph};
use crate::legality::{legal_row_keeps_placement_legal, row_is_legal};
use crate::model::{BelId, CellId, Point};
use crate::nearest::{
    are_nearest, available_within, is_reach, nearest_legal_assignments,
    PLACEMENT_REFINEMENT_CANDIDATES,
};
use crate::neighbors::{neighbors_in_range, PlacementNeighbor};
use crate::ordered::OrderedSet;
use crate::placement_constraints::PlacementConstraints;
use crate::placement_state::{row_is_free, PlacementState};
use crate::row_cost::{assignment_wirelength, bel_point, has_cell, placed_on_device, row_cost};
use crate::spatial::{choices_on_device, SpatialChoiceIndex};
use crate::standing::{stands, stands_on, units_stand};
use crate::unit_list::units_disjoint;
use crate::units::{row_fits, PlacementUnit};
use crate::usage_model::{
    cells_in_range, lemma_row_restores, lemma_with_row, lemma_without_cells, with_row,
    without_cells,
};

verus! {

/// What of an edge is summed up.
#[derive(Clone, Copy, Debug, PartialEq, Eq, Structural)]
pub enum Moment {
    /// Weight.
    Weight,
    /// Column of the other end times weight.
    Column,
    /// Row of the other end times weight.
    Row,
}

/// Moment of one edge: nothing within the unit or to an unplaced cell.
pub open spec fn edge_moment(
    edge: PlacementNeighbor,
    cells: Seq<CellId>,
    device: &Device,
    placed: Seq<Option<BelId>>,
    moment: Moment,
) -> int {
    match placed[edge.cell.0 as int] {
        Some(bel) => if cells.contains(edge.cell) {
            0
        } else {
            match moment {
                Moment::Weight => edge.weight as int,
                Moment::Column => clip_u64(bel_point(device, bel).x * edge.weight),
                Moment::Row => clip_u64(bel_point(device, bel).y * edge.weight),
            }
        },
        None => 0,
    }
}

/// Moment of the edges of one cell.
pub open spec fn list_moment(
    list: Seq<PlacementNeighbor>,
    cells: Seq<CellId>,
    device: &Device,
    placed: Seq<Option<BelId>>,
    moment: Moment,
) -> int
    decreases list.len(),
{
    if list.len() == 0 {
        0
    } else {
        list_moment(list.drop_last(), cells, device, placed, moment) + edge_moment(
            list.last(),
            cells,
            device,
            placed,
            moment,
        )
    }
}

/// Moment of the edges of the first cells of a unit.
pub open spec fn unit_moment(
    count: int,
    cells: Seq<CellId>,
    device: &Device,
    neighbors: Seq<Vec<PlacementNeighbor>>,
    placed: Seq<Option<BelId>>,
    moment: Moment,
) -> int
    decreases count,
{
    if count <= 0 {
        0
    } else {
        unit_moment(count - 1, cells, device, neighbors, placed, moment) + list_moment(
            neighbors[cells[count - 1].0 as int]@,
            cells,
            device,
            placed,
            moment,
        )
    }
}

/// Weighted mean tile of the placed neighbors outside the unit.
pub open spec fn pull_center(
    cells: Seq<CellId>,
    device: &Device,
    neighbors: Seq<Vec<PlacementNeighbor>>,
    placed: Seq<Option<BelId>>,
) -> Option<Point> {
    let count = cells.len() as int;
    let weight = clip_u64(unit_moment(count, cells, device, neighbors, placed, Moment::Weight));
    let column = clip_u64(unit_moment(count, cells, device, neighbors, placed, Moment::Column));
    let row = clip_u64(unit_moment(count, cells, device, neighbors, placed, Moment::Row));
    if weight == 0 {
        None
    } else {
        Some(Point { x: (column / weight) as u32, y: (row / weight) as u32 })
    }
}

/// Moments of edges are bounded by the device.
proof fn lemma_edge_moment(
    edge: PlacementNeighbor,
    cells: Seq<CellId>,
    device: &Device,
    placed: Seq<Option<BelId>>,
)
    requires
        device.wf(),
        edge.cell.0 < placed.len(),
        placed_on_device(device, placed),
    ensures
        0 <= edge_moment(edge, cells, device, placed, Moment::Weight),
        0 <= edge_moment(edge, cells, device, placed, Moment::Column) <= (device.width - 1)
            * edge_moment(edge, cells, device, placed, Moment::Weight),
        0 <= edge_moment(edge, cells, device, placed, Moment::Row) <= (device.height - 1)
            * edge_moment(edge, cells, device, placed, Moment::Weight),
{
    if let Some(bel) = placed[edge.cell.0 as int] {
        let point = bel_point(device, bel);
        assert(device.holds(point));
        assert(0 <= point.x * edge.weight <= (device.width - 1) * edge.weight) by (nonlinear_arith)
            requires
                0 <= point.x <= device.width - 1,
                0 <= edge.weight,
        ;
        assert(0 <= point.y * edge.weight <= (device.height - 1) * edge.weight) by (nonlinear_arith)
            requires
                0 <= point.y <= device.height - 1,
                0 <= edge.weight,
        ;
    }
    assert((device.width - 1) * 0 == 0);
    assert((device.height - 1) * 0 == 0);
}

/// Moments of lists are bounded by the device.
proof fn lemma_list_moment(
    list: Seq<PlacementNeighbor>,
    cells: Seq<CellId>,
    device: &Device,
    placed: Seq<Option<BelId>>,
)
    requires
        device.wf(),
        forall|k: int| 0 <= k < list.len() ==> (#[trigger] list[k]).cell.0 < placed.len(),
        placed_on_device(device, placed),
    ensures
        0 <= list_moment(list, cells, device, placed, Moment::Weight),
        0 <= list_moment(list, cells, device, placed, Moment::Column) <= (device.width - 1)
            * list_moment(list, cells, device, placed, Moment::Weight),
        0 <= list_moment(list, cells, device, placed, Moment::Row) <= (device.height - 1)
            * list_moment(list, cells, device, placed, Moment::Weight),
    decreases list.len(),
{
    if list.len() > 0 {
        let rest = list.drop_last();
        assert forall|k: int| 0 <= k < rest.len() implies (#[trigger] rest[k]).cell.0
            < placed.len() by {
            assert(rest[k] == list[k]);
        }
        lemma_list_moment(rest, cells, device, placed);
        assert(list[list.len() - 1].cell.0 < placed.len());
        lemma_edge_moment(list.last(), cells, device, placed);
        let a = list_moment(rest, cells, device, placed, Moment::Weight);
        let b = edge_moment(list.last(), cells, device, placed, Moment::Weight);
        assert((device.width - 1) * (a + b) == (device.width - 1) * a + (device.width - 1) * b)
            by (nonlinear_arith);
        assert((device.height - 1) * (a + b) == (device.height - 1) * a + (device.height - 1) * b)
            by (nonlinear_arith);
    } else {
        assert((device.width - 1) * 0 == 0);
        assert((device.height - 1) * 0 == 0);
    }
}

/// Moments of units are bounded by the device.
proof fn lemma_unit_moment(
    count: int,
    cells: Seq<CellId>,
    device: &Device,
    neighbors: Seq<Vec<PlacementNeighbor>>,
    placed: Seq<Option<BelId>>,
)
    requires
        device.wf(),
        0 <= count <= cells.len(),
        neighbors_in_range(neighbors, placed.len() as int),
        placed_on_device(device, placed),
        forall|k: int| 0 <= k < cells.len() ==> (#[trigger] cells[k]).0 < placed.len(),
    ensures
        0 <= unit_moment(count, cells, device, neighbors, placed, Moment::Weight),
        0 <= unit_moment(count, cells, device, neighbors, placed, Moment::Column) <= (device.width
            - 1) * unit_moment(count, cells, device, neighbors, placed, Moment::Weight),
        0 <= unit_moment(count, cells, device, neighbors, placed, Moment::Row) <= (device.height
            - 1) * unit_moment(count, cells, device, neighbors, placed, Moment::Weight),
    decreases count,
{
    if count > 0 {
        lemma_unit_moment(count - 1, cells, device, neighbors, placed);
        let cell = cells[count - 1];
        let list = neighbors[cell.0 as int]@;
        assert forall|k: int| 0 <= k < list.len() implies (#[trigger] list[k]).cell.0
            < placed.len() by {
            assert(neighbors[cell.0 as int]@[k].cell.0 < placed.len());
        }
        lemma_list_moment(list, cells, device, placed);
        let a = unit_moment(count - 1, cells, device, neighbors, placed, Moment::Weight);
        let b = list_moment(list, cells, device, placed, Moment::Weight);
        assert((device.width - 1) * (a + b) == (device.width - 1) * a + (device.width - 1) * b)
            by (nonlinear_arith);
        assert((device.height - 1) * (a + b) == (device.height - 1) * a + (device.height - 1) * b)
            by (nonlinear_arith);
    } else {
        assert((device.width - 1) * 0 == 0);
        assert((device.height - 1) * 0 == 0);
    }
}

/// The mean of coordinates is one of the device's.
proof fn lemma_mean(weight: int, sum: int, extent: int)
    requires
        1 <= extent <= u32::MAX,
        0 <= weight,
        0 <= sum <= (extent - 1) * weight,
        clip_u64(weight) != 0,
    ensures
        0 <= clip_u64(sum) / clip_u64(weight) < extent,
{
    let w = clip_u64(weight);
    let s = clip_u64(sum);
    if weight <= u64::MAX {
        assert(s <= (extent - 1) * w);
        assert(s / w <= extent - 1) by (nonlinear_arith)
            requires
                s <= (extent - 1) * w,
                w > 0,
        ;
    } else if extent == 1 {
        assert((extent - 1) * weight == 0) by (nonlinear_arith)
            requires
                extent == 1,
        ;
        assert(s == 0);
        assert(s / w == 0) by (nonlinear_arith)
            requires
                s == 0,
                w > 0,
        ;
    } else {
        assert(s / w <= 1) by (nonlinear_arith)
            requires
                s <= w,
                w > 0,
        ;
    }
    assert(s / w >= 0) by (nonlinear_arith)
        requires
            s >= 0,
            w > 0,
    ;
}

/// Weighted mean tile of the placed neighbors outside the unit.
fn refinement_target(
    unit: &PlacementUnit,
    device: &Device,
    neighbors: &Vec<Vec<PlacementNeighbor>>,
    placed: &Vec<Option<BelId>>,
) -> (result: Option<Point>)
    requires
        device.wf(),
        neighbors_in_range(neighbors@, placed@.len() as int),
        placed_on_device(device, placed@),
        forall|k: int|
            0 <= k < unit.cells@.len() ==> (#[trigger] unit.cells@[k]).0 < placed@.len(),
    ensures
        result == pull_center(unit.cells@, device, neighbors@, placed@),
        result matches Some(point) ==> device.holds(point),
{
    let cells = &unit.cells;
    let mut column: u64 = 0;
    let mut row: u64 = 0;
    let mut weight: u64 = 0;
    let mut at: usize = 0;
    while at < cells.len()
        invariant
            at <= cells@.len(),
            *cells == unit.cells,
            device.wf(),
            neighbors_in_range(neighbors@, placed@.len() as int),
            placed_on_device(device, placed@),
            forall|k: int| 0 <= k < cells@.len() ==> (#[trigger] cells@[k]).0 < placed@.len(),
            weight == clip_u64(
                unit_moment(at as int, cells@, device, neighbors@, placed@, Moment::Weight),
            ),
            column == clip_u64(
                unit_moment(at as int, cells@, device, neighbors@, placed@, Moment::Column),
            ),
            row == clip_u64(
                unit_moment(at as int, cells@, device, neighbors@, placed@, Moment::Row),
            ),
        decreases cells@.len() - at,
    {
        assert(cells@[at as int].0 < placed@.len());
        let cell = cells[at];
        let list = &neighbors[cell.0];
        let ghost weights = unit_moment(
            at as int,
            cells@,
            device,
            neighbors@,
            placed@,
            Moment::Weight,
        );
        let ghost columns = unit_moment(
            at as int,
            cells@,
            device,
            neighbors@,
            placed@,
            Moment::Column,
        );
        let ghost rows = unit_moment(at as int, cells@, device, neighbors@, placed@, Moment::Row);
        proof {
            lemma_unit_moment(at as int, cells@, device, neighbors@, placed@);
            assert forall|k: int| 0 <= k < list@.len() implies (#[trigger] list@[k]).cell.0
                < placed@.len() by {
                assert(neighbors@[cell.0 as int]@[k].cell.0 < placed@.len());
            }
        }
        let mut edge: usize = 0;
        while edge < list.len()
            invariant
                edge <= list@.len(),
                device.wf(),
                placed_on_device(device, placed@),
                forall|k: int|
                    0 <= k < list@.len() ==> (#[trigger] list@[k]).cell.0 < placed@.len(),
                weights >= 0,
                columns >= 0,
                rows >= 0,
                weight == clip_u64(
                    weights + list_moment(
                        list@.take(edge as int),
                        cells@,
                        device,
                        placed@,
                        Moment::Weight,
                    ),
                ),
                column == clip_u64(
                    columns + list_moment(
                        list@.take(edge as int),
                        cells@,
                        device,
                        placed@,
                        Moment::Column,
                    ),
                ),
                row == clip_u64(
                    rows + list_moment(
                        list@.take(edge as int),
                        cells@,
                        device,
                        placed@,
                        Moment::Row,
                    ),
                ),
            decreases list@.len() - edge,
        {
            let link = list[edge];
            proof {
                assert(list@[edge as int].cell.0 < placed@.len());
                let shorter = list@.take(edge as int);
                assert(list@.take(edge + 1).drop_last() =~= shorter);
                assert(list@.take(edge + 1).last() == link);
                assert forall|k: int| 0 <= k < shorter.len() implies (
                #[trigger] shorter[k]).cell.0 < placed@.len() by {
                    assert(shorter[k] == list@[k]);
                }
                lemma_list_moment(shorter, cells@, device, placed@);
                lemma_edge_moment(link, cells@, device, placed@);
            }
            if !has_cell(cells, link.cell) {
                if let Some(bel) = placed[link.cell.0] {
                    assert(placed@[link.cell.0 as int] == Some(bel));
                    let point = device.bels[bel.0].point;
                    column = column.saturating_add(saturating_product(point.x as u64, link.weight));
                    row = row.saturating_add(saturating_product(point.y as u64, link.weight));
                    weight = weight.saturating_add(link.weight);
                }
            }
            edge = edge + 1;
        }
        assert(list@.take(edge as int) =~= list@);
        at = at + 1;
    }
    if weight == 0 {
        return None;
    }
    proof {
        let count = cells@.len() as int;
        lemma_unit_moment(count, cells@, device, neighbors@, placed@);
        let total = unit_moment(count, cells@, device, neighbors@, placed@, Moment::Weight);
        assert(device.width * device.height <= u32::MAX);
        lemma_mean(
            total,
            unit_moment(count, cells@, device, neighbors@, placed@, Moment::Column),
            device.width as int,
        );
        lemma_mean(
            total,
            unit_moment(count, cells@, device, neighbors@, placed@, Moment::Row),
            device.height as int,
        );
    }
    Some(Point { x: (column / weight) as u32, y: (row / weight) as u32 })
}

/// Of the first rows of the set, none costs less, and none before it costs the same.
pub open spec fn is_cheapest(
    graph: UnifiedGraph<'_>,
    neighbors: Seq<Vec<PlacementNeighbor>>,
    placed: Seq<Option<BelId>>,
    unit: PlacementUnit,
    found: OrderedSet<usize>,
    index: int,
) -> bool {
    exists|at: int|
        {
            &&& 0 <= at < found.ordered().len()
            &&& at < PLACEMENT_REFINEMENT_CANDIDATES
            &&& #[trigger] found.ordered()[at] == index
            &&& forall|other: int|
                0 <= other < found.ordered().len() && other < PLACEMENT_REFINEMENT_CANDIDATES ==> {
                    let mine = choice_cost(graph, neighbors, placed, unit, index);
                    let theirs = choice_cost(
                        graph,
                        neighbors,
                        placed,
                        unit,
                        (#[trigger] found.ordered()[other]) as int,
                    );
                    mine < theirs || (mine == theirs && at <= other)
                }
        }
}

/// Cost of one of a unit's rows.
pub open spec fn choice_cost(
    graph: UnifiedGraph<'_>,
    neighbors: Seq<Vec<PlacementNeighbor>>,
    placed: Seq<Option<BelId>>,
    unit: PlacementUnit,
    index: int,
) -> int {
    row_cost(unit.cells@, unit.choices.row(index), graph.device, neighbors, placed)
}

/// The row to which the unit would move.
pub open spec fn is_refined_choice(
    graph: UnifiedGraph<'_>,
    constraints: &PlacementConstraints,
    neighbors: Seq<Vec<PlacementNeighbor>>,
    occupied: Seq<bool>,
    placed: Seq<Option<BelId>>,
    unit: PlacementUnit,
    choice: Option<int>,
) -> bool {
    match pull_center(unit.cells@, graph.device, neighbors, placed) {
        None => choice is None,
        Some(target) => exists|found: OrderedSet<usize>|
            {
                &&& found.wf()
                &&& #[trigger] are_nearest(
                    graph,
                    constraints,
                    occupied,
                    placed,
                    unit,
                    target,
                    found,
                )
                &&& match choice {
                    None => found.ordered().len() == 0,
                    Some(index) => is_cheapest(graph, neighbors, placed, unit, found, index),
                }
            },
    }
}

/// Cheapest of the available rows nearest to the mean tile of the unit's neighbors.
fn choose_refined_assignment(
    graph: &UnifiedGraph<'_>,
    constraints: &PlacementConstraints,
    unit: &PlacementUnit,
    index: &SpatialChoiceIndex,
    neighbors: &Vec<Vec<PlacementNeighbor>>,
    state: &mut PlacementState,
) -> (result: Option<usize>)
    requires
        graph.wf(),
        constraints.wf(),
        bindings_in_range(*graph, constraints),
        neighbors_in_range(neighbors@, graph.design.cells@.len() as int),
        unit.wf(*graph, constraints),
        choices_on_device(unit.choices, graph.device),
        index.indexes(unit.choices, graph.device),
        old(state).wf(*graph, constraints),
        forall|k: int|
            0 <= k < unit.cells@.len() ==> old(state).placed@[(#[trigger] unit.cells@[k]).0 as int]
                is None,
    ensures
        final(state).wf(*graph, constraints),
        final(state).placed == old(state).placed,
        final(state).occupied == old(state).occupied,
        is_refined_choice(
            *graph,
            constraints,
            neighbors@,
            old(state).occupied@,
            old(state).placed@,
            *unit,
            match result {
                Some(choice) => Some(choice as int),
                None => None,
            },
        ),
        result matches Some(choice) ==> {
            &&& choice < unit.choices.count()
            &&& row_is_free(old(state).occupied@, unit.choices.row(choice as int))
            &&& row_is_legal(
                *graph,
                constraints,
                old(state).placed@,
                unit.cells@,
                unit.choices.row(choice as int),
            )
        },
{
    let device = graph.device();
    let ghost placed = state.placed@;
    let ghost flags = state.occupied@;
    proof {
        assert(placed_on_device(device, placed)) by {
            assert forall|c: int| 0 <= c < placed.len() implies (
            #[trigger] placed[c] matches Some(bel) ==> bel.0 < device.bels@.len()) by {}
        }
    }
    let target = match refinement_target(unit, device, neighbors, &state.placed) {
        None => {
            return None;
        },
        Some(target) => target,
    };
    let found = nearest_legal_assignments(graph, constraints, unit, index, target, state);
    proof {
        let distance = choose|distance: int| #[trigger]
            is_reach(
                *graph,
                constraints,
                flags,
                placed,
                *unit,
                target,
                distance,
                found@,
            );
        assert forall|i: usize| #[trigger] found@.contains(i) implies i < unit.choices.count()
            && row_is_free(flags, unit.choices.row(i as int)) && row_is_legal(
            *graph,
            constraints,
            placed,
            unit.cells@,
            unit.choices.row(i as int),
        ) by {
            assert(available_within(
                *graph,
                constraints,
                flags,
                placed,
                *unit,
                target,
                distance,
                i as int,
            ));
        }
    }
    let mut best: Option<(u64, usize)> = None;
    let ghost mut best_at: int = 0;
    let mut at: usize = 0;
    while at < found.len() && at < PLACEMENT_REFINEMENT_CANDIDATES
        invariant
            at <= found.ordered().len(),
            at <= PLACEMENT_REFINEMENT_CANDIDATES,
            found.wf(),
            graph.wf(),
            device == graph.device,
            neighbors_in_range(neighbors@, graph.design.cells@.len() as int),
            unit.wf(*graph, constraints),
            state.wf(*graph, constraints),
            placed == state.placed@,
            placed_on_device(device, placed),
            forall|i: usize| #[trigger]
                found@.contains(i) ==> i < unit.choices.count() && row_is_free(
                    flags,
                    unit.choices.row(i as int),
                ) && row_is_legal(
                    *graph,
                    constraints,
                    placed,
                    unit.cells@,
                    unit.choices.row(i as int),
                ),
            best is None <==> at == 0,
            best matches Some(pair) ==> {
                &&& 0 <= best_at < at
                &&& found.ordered()[best_at] == pair.1
                &&& found@.contains(pair.1)
                &&& pair.0 == choice_cost(*graph, neighbors@, placed, *unit, pair.1 as int)
                &&& forall|other: int|
                    0 <= other < at ==> {
                        let theirs = choice_cost(
                            *graph,
                            neighbors@,
                            placed,
                            *unit,
                            (#[trigger] found.ordered()[other]) as int,
                        );
                        pair.0 < theirs || (pair.0 == theirs && best_at <= other)
                    }
            },
        decreases found.ordered().len() - at,
    {
        let choice: usize = found.at(at);
        assert(found@.contains(choice));
        let row = unit.choices.assignment(choice);
        proof {
            assert(row_fits(*graph, constraints, unit.cells@, unit.choices.row(choice as int)));
            assert forall|k: int| 0 <= k < row@.len() implies (#[trigger] row@[k]).0
                < device.bels@.len() by {
                assert(can_hold(*graph, constraints, unit.cells@[k], row@[k]));
            }
        }
        let cost: u64 = assignment_wirelength(&unit.cells, &row, device, neighbors, &state.placed);
        let better = match best {
            None => true,
            Some(pair) => cost < pair.0,
        };
        if better {
            best = Some((cost, choice));
            proof {
                best_at = at as int;
            }
        }
        at = at + 1;
    }
    match best {
        None => None,
        Some(pair) => {
            proof {
                assert(found.ordered()[best_at] == pair.1);
                assert(is_cheapest(*graph, neighbors@, placed, *unit, found, pair.1 as int));
            }
            Some(pair.1)
        },
    }
}

/// One unit is offered a move: it takes the chosen row where that costs less.
pub open spec fn refine_step(
    graph: UnifiedGraph<'_>,
    constraints: &PlacementConstraints,
    neighbors: Seq<Vec<PlacementNeighbor>>,
    unit: PlacementUnit,
    before: Seq<Option<BelId>>,
    after: Seq<Option<BelId>>,
    moved: bool,
) -> bool {
    let empty = without_cells(before, unit.cells@);
    if unit.choices.count() <= 1 {
        !moved && after == before
    } else {
        exists|current: int, occupied: Seq<bool>, choice: Option<int>|
            {
                &&& #[trigger] stands_on(unit, before, current)
                &&& occupied.len() == graph.device.bels@.len()
                &&& crate::placement_state::marks_taken(occupied, empty)
                &&& #[trigger] is_refined_choice(
                    graph,
                    constraints,
                    neighbors,
                    occupied,
                    empty,
                    unit,
                    choice,
                )
                &&& moved == (choice matches Some(index) && choice_cost(
                    graph,
                    neighbors,
                    empty,
                    unit,
                    index,
                ) < choice_cost(graph, neighbors, empty, unit, current))
                &&& after == if moved {
                    with_row(empty, unit.cells@, unit.choices.row(choice->0))
                } else {
                    before
                }
            }
    }
}

/// The row that a standing unit stands on.
pub(crate) fn current_row(unit: &PlacementUnit, placed: &Vec<Option<BelId>>) -> (result: Vec<BelId>)
    requires
        forall|k: int|
            0 <= k < unit.cells@.len() ==> (#[trigger] unit.cells@[k]).0 < placed@.len()
                && placed@[unit.cells@[k].0 as int] is Some,
    ensures
        result@.len() == unit.cells@.len(),
        forall|k: int|
            0 <= k < unit.cells@.len() ==> placed@[(#[trigger] unit.cells@[k]).0 as int] == Some(
                result@[k],
            ),
{
    let mut result: Vec<BelId> = Vec::new();
    let mut at: usize = 0;
    while at < unit.cells.len()
        invariant
            at <= unit.cells@.len(),
            forall|k: int|
                0 <= k < unit.cells@.len() ==> (#[trigger] unit.cells@[k]).0 < placed@.len()
                    && placed@[unit.cells@[k].0 as int] is Some,
            result@.len() == at,
            forall|k: int|
                0 <= k < at ==> placed@[(#[trigger] unit.cells@[k]).0 as int] == Some(result@[k]),
        decreases unit.cells@.len() - at,
    {
        assert(unit.cells@[at as int].0 < placed@.len());
        if let Some(bel) = placed[unit.cells[at].0] {
            result.push(bel);
        }
        at = at + 1;
    }
    result
}

/// Units that do not share a cell with the placed row stand as before.
pub proof fn lemma_others_stand(
    graph: UnifiedGraph<'_>,
    constraints: &PlacementConstraints,
    units: Seq<PlacementUnit>,
    placed: Seq<Option<BelId>>,
    unit: int,
    choice: int,
)
    requires
        graph.wf(),
        forall|u: int| 0 <= u < units.len() ==> (#[trigger] units[u]).wf(graph, constraints),
        units_disjoint(units),
        placed.len() == graph.design.cells@.len(),
        units_stand(units, placed),
        0 <= unit < units.len(),
        0 <= choice < units[unit].choices.count(),
    ensures
        units_stand(
            units,
            with_row(
                without_cells(placed, units[unit].cells@),
                units[unit].cells@,
                units[unit].choices.row(choice),
            ),
        ),
{
    let cells = units[unit].cells@;
    let row = units[unit].choices.row(choice);
    let empty = without_cells(placed, cells);
    let after = with_row(empty, cells, row);
    assert(units[unit].wf(graph, constraints));
    assert(row_fits(graph, constraints, cells, row));
    assert(graph.design.cells.len() == graph.design.cells@.len());
    assert(cells_in_range(cells, placed.len() as int));
    lemma_without_cells(placed, cells);
    lemma_with_row(empty, cells, row);
    assert forall|u: int| 0 <= u < units.len() implies stands(#[trigger] units[u], after) by {
        if u == unit {
            assert(stands_on(units[u], after, choice)) by {
                assert forall|k: int| 0 <= k < units[u].cells@.len() implies after[(
                #[trigger] units[u].cells@[k]).0 as int] == Some(
                    units[u].choices.row(choice)[k],
                ) by {
                    assert(after[cells[k].0 as int] == Some(row[k]));
                }
            }
        } else {
            assert(stands(units[u], placed));
            let i = choose|i: int| #[trigger] stands_on(units[u], placed, i);
            assert(units[u].wf(graph, constraints));
            assert(stands_on(units[u], after, i)) by {
                assert forall|k: int| 0 <= k < units[u].cells@.len() implies after[(
                #[trigger] units[u].cells@[k]).0 as int] == Some(units[u].choices.row(i)[k]) by {
                    let cell = units[u].cells@[k];
                    if cells.contains(cell) {
                        let l = cells.index_of(cell);
                        assert(units[unit].cells@[l] == units[u].cells@[k]);
                    }
                    assert(CellId(cell.0 as int as usize) == cell);
                    assert(empty[cell.0 as int] == placed[cell.0 as int]);
                    assert(after[cell.0 as int] == empty[cell.0 as int]);
                    assert(placed[units[u].cells@[k].0 as int] == Some(units[u].choices.row(i)[k]));
                }
            }
        }
    }
}

/// Every unit has an index of its choices.
pub open spec fn all_indexed(
    graph: UnifiedGraph<'_>,
    units: Seq<PlacementUnit>,
    spatial: Seq<Arc<SpatialChoiceIndex>>,
) -> bool {
    &&& spatial.len() == units.len()
    &&& forall|u: int|
        0 <= u < units.len() ==> (#[trigger] spatial[u]).indexes(units[u].choices, graph.device)
}

/// The cost of a unit's row does not depend on where the unit stands.
proof fn lemma_cost_ignores_unit(
    device: &Device,
    neighbors: Seq<Vec<PlacementNeighbor>>,
    placed: Seq<Option<BelId>>,
    cells: Seq<CellId>,
    row: Seq<BelId>,
)
    requires
        cells_in_range(cells, placed.len() as int),
        placed.len() <= usize::MAX,
        neighbors_in_range(neighbors, placed.len() as int),
    ensures
        row_cost(cells, row, device, neighbors, placed) == row_cost(
            cells,
            row,
            device,
            neighbors,
            without_cells(placed, cells),
        ),
{
    lemma_without_cells(placed, cells);
    lemma_row_cost_ignores(
        cells.len() as int,
        cells,
        row,
        device,
        neighbors,
        placed,
        without_cells(placed, cells),
    );
}

/// Row costs agree where the slots outside the unit do.
proof fn lemma_row_cost_ignores(
    count: int,
    cells: Seq<CellId>,
    row: Seq<BelId>,
    device: &Device,
    neighbors: Seq<Vec<PlacementNeighbor>>,
    a: Seq<Option<BelId>>,
    b: Seq<Option<BelId>>,
)
    requires
        a.len() == b.len(),
        a.len() <= usize::MAX,
        0 <= count <= cells.len(),
        cells_in_range(cells, a.len() as int),
        neighbors_in_range(neighbors, a.len() as int),
        forall|c: int|
            0 <= c < a.len() && !cells.contains(CellId(c as usize)) ==> #[trigger] b[c] == a[c],
    ensures
        crate::row_cost::row_cost_upto(count, cells, row, device, neighbors, a)
            == crate::row_cost::row_cost_upto(count, cells, row, device, neighbors, b),
    decreases count,
{
    if count > 0 {
        lemma_row_cost_ignores(count - 1, cells, row, device, neighbors, a, b);
        let cell = cells[count - 1];
        let list = neighbors[cell.0 as int]@;
        assert forall|k: int| 0 <= k < list.len() implies (#[trigger] list[k]).cell.0 < a.len() by {
            assert(neighbors[cell.0 as int]@[k].cell.0 < a.len());
        }
        lemma_cell_cost_ignores(list, cells, bel_point(device, row[count - 1]), device, a, b);
    }
}

/// Cell costs agree where the slots outside the unit do.
proof fn lemma_cell_cost_ignores(
    list: Seq<PlacementNeighbor>,
    cells: Seq<CellId>,
    point: Point,
    device: &Device,
    a: Seq<Option<BelId>>,
    b: Seq<Option<BelId>>,
)
    requires
        a.len() == b.len(),
        a.len() <= usize::MAX,
        forall|k: int| 0 <= k < list.len() ==> (#[trigger] list[k]).cell.0 < a.len(),
        forall|c: int|
            0 <= c < a.len() && !cells.contains(CellId(c as usize)) ==> #[trigger] b[c] == a[c],
    ensures
        crate::row_cost::cell_cost(list, cells, point, device, a) == crate::row_cost::cell_cost(
            list,
            cells,
            point,
            device,
            b,
        ),
    decreases list.len(),
{
    if list.len() > 0 {
        let rest = list.drop_last();
        assert forall|k: int| 0 <= k < rest.len() implies (#[trigger] rest[k]).cell.0 < a.len() by {
            assert(rest[k] == list[k]);
        }
        lemma_cell_cost_ignores(rest, cells, point, device, a, b);
        let edge = list[list.len() - 1];
        assert(edge.cell.0 < a.len());
        assert(CellId(edge.cell.0 as int as usize) == edge.cell);
        if !cells.contains(edge.cell) {
            assert(b[edge.cell.0 as int] == a[edge.cell.0 as int]);
        }
    }
}

/// Offers one unit a move.
pub(crate) fn refine_unit(
    graph: &UnifiedGraph<'_>,
    constraints: &PlacementConstraints,
    units: &Vec<PlacementUnit>,
    index: usize,
    spatial: &SpatialChoiceIndex,
    neighbors: &Vec<Vec<PlacementNeighbor>>,
    state: &mut PlacementState,
) -> (result: bool)
    requires
        graph.wf(),
        constraints.wf(),
        bindings_in_range(*graph, constraints),
        neighbors_in_range(neighbors@, graph.design.cells@.len() as int),
        forall|u: int|
            0 <= u < units@.len() ==> (#[trigger] units@[u]).wf(*graph, constraints),
        units_disjoint(units@),
        index < units@.len(),
        spatial.indexes(units@[index as int].choices, graph.device),
        old(state).wf(*graph, constraints),
        units_stand(units@, old(state).placed@),
    ensures
        final(state).wf(*graph, constraints),
        units_stand(units@, final(state).placed@),
        refine_step(
            *graph,
            constraints,
            neighbors@,
            units@[index as int],
            old(state).placed@,
            final(state).placed@,
            result,
        ),
{
    let unit = &units[index];
    if unit.choices.len() <= 1 {
        return false;
    }
    let device = graph.device();
    let ghost before = state.placed@;
    assert(units@[index as int].wf(*graph, constraints));
    assert(stands(units@[index as int], before));
    let ghost standing = choose|i: int| #[trigger] stands_on(units@[index as int], before, i);
    proof {
        assert(stands_on(units@[index as int], before, standing));
        assert forall|k: int| 0 <= k < unit.cells@.len() implies (
        #[trigger] unit.cells@[k]).0 < before.len() && before[unit.cells@[k].0 as int] is Some by {
            assert(before[unit.cells@[k].0 as int] == Some(unit.choices.row(standing)[k]));
        }
    }
    let current = current_row(unit, &state.placed);
    proof {
        assert(row_fits(*graph, constraints, unit.cells@, unit.choices.row(standing)));
        assert forall|k: int| 0 <= k < current@.len() implies current@[k]
            == unit.choices.row(standing)[k] by {
            assert(before[unit.cells@[k].0 as int] == Some(unit.choices.row(standing)[k]));
        }
        assert(current@ =~= unit.choices.row(standing));
        assert(cells_in_range(unit.cells@, graph.design.cells@.len() as int));
        assert forall|k: int| 0 <= k < current@.len() implies (#[trigger] current@[k]).0
            < device.bels@.len() by {
            assert(can_hold(*graph, constraints, unit.cells@[k], current@[k]));
        }
        assert(placed_on_device(device, before)) by {
            assert forall|c: int| 0 <= c < before.len() implies (
            #[trigger] before[c] matches Some(bel) ==> bel.0 < device.bels@.len()) by {}
        }
        assert(graph.design.cells.len() == graph.design.cells@.len());
        lemma_cost_ignores_unit(device, neighbors@, before, unit.cells@, current@);
    }
    let current_cost: u64 = assignment_wirelength(
        &unit.cells,
        &current,
        device,
        neighbors,
        &state.placed,
    );
    state.take_row(graph, constraints, &unit.cells, &current);
    let ghost empty = state.placed@;
    let ghost flags = state.occupied@;
    proof {
        lemma_without_cells(before, unit.cells@);
        lemma_row_restores(before, unit.cells@, current@);
        legal_row_keeps_placement_legal(*graph, constraints, empty, unit.cells@, current@);
        assert(choices_on_device(unit.choices, device)) by {
            assert forall|i: int| 0 <= i < unit.choices.count() implies (
            #[trigger] unit.choices.row(i)).len() > 0 && unit.choices.row(i)[0].0
                < device.bels@.len() by {
                assert(row_fits(*graph, constraints, unit.cells@, unit.choices.row(i)));
                assert(can_hold(*graph, constraints, unit.cells@[0], unit.choices.row(i)[0]));
            }
        }
    }
    let choice = choose_refined_assignment(
        graph,
        constraints,
        unit,
        spatial,
        neighbors,
        state,
    );
    let mut moved = false;
    if let Some(best) = choice {
        let row = unit.choices.assignment(best);
        proof {
            assert(row_fits(*graph, constraints, unit.cells@, unit.choices.row(best as int)));
            assert forall|k: int| 0 <= k < row@.len() implies (#[trigger] row@[k]).0
                < device.bels@.len() by {
                assert(can_hold(*graph, constraints, unit.cells@[k], row@[k]));
            }
            assert(placed_on_device(device, empty)) by {
                assert forall|c: int| 0 <= c < empty.len() implies (
                #[trigger] empty[c] matches Some(bel) ==> bel.0 < device.bels@.len()) by {}
            }
        }
        let best_cost: u64 = assignment_wirelength(
            &unit.cells,
            &row,
            device,
            neighbors,
            &state.placed,
        );
        if best_cost < current_cost {
            state.put_row(graph, constraints, &unit.cells, &row);
            moved = true;
            proof {
                lemma_others_stand(
                    *graph,
                    constraints,
                    units@,
                    before,
                    index as int,
                    best as int,
                );
            }
        }
    }
    if !moved {
        state.put_row(graph, constraints, &unit.cells, &current);
    }
    proof {
        let picked: Option<int> = match choice {
            Some(best) => Some(best as int),
            None => None,
        };
        assert(stands_on(units@[index as int], before, standing));
        assert(is_refined_choice(
            *graph,
            constraints,
            neighbors@,
            flags,
            empty,
            units@[index as int],
            picked,
        ));
    }
    moved
}

} // verus!
