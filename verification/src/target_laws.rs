//! Which connections move a cell, and by how much.

use vstd::prelude::*;

use crate::candidates::choice_wire;
use crate::cell_moves::{first_of, CellMove};
use crate::cell_refine::{is_cell_move, proposals_outcome, proposed_for};
use crate::connection_cost::{bel_on_row, column_of, link_delay, local_delay, total_excess};
use crate::connection_move::{is_lifted, unit_moved};
use crate::device::UnifiedGraph;
use crate::finish::all_placed;
use crate::model::{BelId, CellId, CellPinId};
use crate::placement::Placement;
use crate::placement_constraints::PlacementConstraints;
use crate::projection::RouteCapacityProjection;
use crate::ranking::RankedRow;
use crate::refiner::PlacementRefiner;
use crate::start::starts_legal;
use crate::usage_model::{
    cells_in_range, lemma_with_row, lemma_without_cells, with_row, without_cells,
};

verus! {

/// Delay of a fastest short walk between the ends of a connection, with every cell
/// on the BEL that is bound to it.
pub open spec fn bound_delay(
    refiner: PlacementRefiner<'_>,
    bindings: Seq<BelId>,
    link: (CellPinId, CellPinId),
    delays: &[u32],
) -> Option<u64> {
    let pins = refiner.graph.design.pins@;
    let from = bindings[pins[link.0.0 as int].cell.0 as int];
    let to = bindings[pins[link.1.0 as int].cell.0 as int];
    match (
        choice_wire(refiner.graph, refiner.constraints, link.0, from),
        choice_wire(refiner.graph, refiner.constraints, link.1, to),
    ) {
        (Some(start), Some(goal)) => local_delay(refiner.graph.device, delays, start, goal),
        _ => None,
    }
}

/// Tiles between the ends of a connection, along both axes.
pub open spec fn bound_span(
    refiner: PlacementRefiner<'_>,
    bindings: Seq<BelId>,
    link: (CellPinId, CellPinId),
) -> int {
    let pins = refiner.graph.design.pins@;
    let bels = refiner.graph.device.bels@;
    let a = bels[bindings[pins[link.0.0 as int].cell.0 as int].0 as int].point;
    let b = bels[bindings[pins[link.1.0 as int].cell.0 as int].0 as int].point;
    (if a.x >= b.x {
        a.x - b.x
    } else {
        b.x - a.x
    }) + (if a.y >= b.y {
        a.y - b.y
    } else {
        b.y - a.y
    })
}

/// The column of a listed cell.
pub(crate) proof fn lemma_column(cells: Seq<CellId>, cell: CellId)
    ensures
        match column_of(cells, cell) {
            Some(column) => 0 <= column < cells.len() && cells[column] == cell,
            None => !cells.contains(cell),
        },
    decreases cells.len(),
{
    if cells.len() > 0 && cells[0] != cell {
        lemma_column(cells.drop_first(), cell);
        if column_of(cells, cell) is None {
            assert forall|k: int| 0 <= k < cells.len() implies cells[k] != cell by {
                if k > 0 {
                    assert(cells.drop_first()[k - 1] == cells[k]);
                    assert(cells.drop_first().contains(cells[k]));
                }
            }
        }
    }
}

/// The BEL of a cell, with the unit on a row, is the one that the placement binds it to.
pub(crate) proof fn lemma_bel_on_row(
    bindings: Seq<BelId>,
    later: Seq<BelId>,
    cells: Seq<CellId>,
    row: Seq<BelId>,
    cell: CellId,
)
    requires
        cells_in_range(cells, bindings.len() as int),
        cells.no_duplicates(),
        row.len() == cells.len(),
        bindings.len() <= usize::MAX,
        cell.0 < bindings.len(),
        all_placed(later) == with_row(without_cells(all_placed(bindings), cells), cells, row),
    ensures
        later.len() == bindings.len(),
        bel_on_row(cells, row, cell, without_cells(all_placed(bindings), cells)) == Some(
            later[cell.0 as int],
        ),
{
    let placed = all_placed(bindings);
    let empty = without_cells(placed, cells);
    lemma_without_cells(placed, cells);
    lemma_with_row(empty, cells, row);
    lemma_column(cells, cell);
    assert(all_placed(later).len() == later.len());
    assert(all_placed(later)[cell.0 as int] == Some(later[cell.0 as int]));
    match column_of(cells, cell) {
        Some(column) => {
            assert(cells[column] == cell);
            assert(all_placed(later)[cells[column].0 as int] == Some(row[column]));
        },
        None => {
            assert(CellId(cell.0) == cell);
            assert(empty[cell.0 as int] == placed[cell.0 as int]);
            assert(all_placed(later)[cell.0 as int] == empty[cell.0 as int]);
        },
    }
}

/// A sum that exists is made of delays that exist.
pub(crate) proof fn lemma_excess_parts(
    graph: UnifiedGraph<'_>,
    constraints: &PlacementConstraints,
    cells: Seq<CellId>,
    row: Seq<BelId>,
    moving: CellId,
    links: Seq<(CellPinId, CellPinId)>,
    targets: Seq<u64>,
    placed: Seq<Option<BelId>>,
    delays: &[u32],
)
    requires
        total_excess(graph, constraints, cells, row, moving, links, targets, placed, delays)
            is Some,
    ensures
        forall|k: int|
            0 <= k < links.len() ==> link_delay(
                graph,
                constraints,
                cells,
                row,
                moving,
                #[trigger] links[k],
                placed,
                delays,
            ) is Some,
        total_excess(graph, constraints, cells, row, moving, links, targets, placed, delays)->0
            >= 0,
    decreases links.len(),
{
    if links.len() > 0 {
        let rest = links.drop_last();
        lemma_excess_parts(
            graph,
            constraints,
            cells,
            row,
            moving,
            rest,
            targets,
            placed,
            delays,
        );
        assert forall|k: int| 0 <= k < links.len() implies link_delay(
            graph,
            constraints,
            cells,
            row,
            moving,
            #[trigger] links[k],
            placed,
            delays,
        ) is Some by {
            if k < links.len() - 1 {
                assert(rest[k] == links[k]);
            }
        }
    }
}

/// Where no connection is above its target on the one row by less than on the other,
/// the one sum is no less than the other.
proof fn lemma_excess_order(
    graph: UnifiedGraph<'_>,
    constraints: &PlacementConstraints,
    cells: Seq<CellId>,
    row: Seq<BelId>,
    other: Seq<BelId>,
    moving: CellId,
    links: Seq<(CellPinId, CellPinId)>,
    targets: Seq<u64>,
    placed: Seq<Option<BelId>>,
    delays: &[u32],
)
    requires
        total_excess(graph, constraints, cells, row, moving, links, targets, placed, delays)
            is Some,
        total_excess(graph, constraints, cells, other, moving, links, targets, placed, delays)
            is Some,
        forall|k: int|
            0 <= k < links.len() ==> {
                let known = link_delay(
                    graph,
                    constraints,
                    cells,
                    row,
                    moving,
                    #[trigger] links[k],
                    placed,
                    delays,
                )->0;
                let found = link_delay(
                    graph,
                    constraints,
                    cells,
                    other,
                    moving,
                    links[k],
                    placed,
                    delays,
                )->0;
                known <= targets[k] || known <= found
            },
    ensures
        total_excess(graph, constraints, cells, row, moving, links, targets, placed, delays)->0
            <= total_excess(
            graph,
            constraints,
            cells,
            other,
            moving,
            links,
            targets,
            placed,
            delays,
        )->0,
    decreases links.len(),
{
    if links.len() > 0 {
        let rest = links.drop_last();
        assert forall|k: int| 0 <= k < rest.len() implies {
            let known = link_delay(
                graph,
                constraints,
                cells,
                row,
                moving,
                #[trigger] rest[k],
                placed,
                delays,
            )->0;
            let found = link_delay(
                graph,
                constraints,
                cells,
                other,
                moving,
                rest[k],
                placed,
                delays,
            )->0;
            known <= targets[k] || known <= found
        } by {
            assert(rest[k] == links[k]);
        }
        lemma_excess_order(
            graph,
            constraints,
            cells,
            row,
            other,
            moving,
            rest,
            targets,
            placed,
            delays,
        );
        assert(links[links.len() - 1] == links.last());
    }
}

/// The current row of the unit makes up the placement.
pub(crate) proof fn lemma_current_row(
    refiner: PlacementRefiner<'_>,
    unit: int,
    start: Placement,
    current: Seq<BelId>,
    occupied: Seq<bool>,
    placed: Seq<Option<BelId>>,
)
    requires
        refiner.wf(),
        0 <= unit < refiner.units@.len(),
        start.bindings@.len() == refiner.graph.design.cells@.len(),
        is_lifted(refiner, unit, start, current, occupied, placed),
    ensures
        ({
            let cells = refiner.units@[unit].cells@;
            &&& cells_in_range(cells, start.bindings@.len() as int)
            &&& cells.no_duplicates()
            &&& all_placed(start.bindings@) == with_row(placed, cells, current)
        }),
{
    let cells = refiner.units@[unit].cells@;
    let whole = all_placed(start.bindings@);
    assert(refiner.units@[unit].wf(refiner.graph, refiner.constraints));
    assert(start.bindings.len() == start.bindings@.len());
    lemma_without_cells(whole, cells);
    lemma_with_row(placed, cells, current);
    let again = with_row(placed, cells, current);
    assert forall|c: int| 0 <= c < whole.len() implies whole[c] == again[c] by {
        let cell = CellId(c as usize);
        if cells.contains(cell) {
            let k = cells.index_of(cell);
            assert(again[cells[k].0 as int] == Some(current[k]));
            assert(current[k] == start.bindings@[cells[k].0 as int]);
        } else {
            assert(placed[c] == whole[c]);
            assert(again[c] == placed[c]);
        }
    }
    assert(again =~= whole);
}

/// Delay of a connection with the unit on the row that makes up a placement.
pub(crate) proof fn lemma_link_delay(
    refiner: PlacementRefiner<'_>,
    unit: int,
    start: Placement,
    later: Seq<BelId>,
    row: Seq<BelId>,
    moving: CellId,
    link: (CellPinId, CellPinId),
    delays: &[u32],
)
    requires
        refiner.wf(),
        0 <= unit < refiner.units@.len(),
        start.bindings@.len() == refiner.graph.design.cells@.len(),
        cells_in_range(refiner.units@[unit].cells@, start.bindings@.len() as int),
        refiner.units@[unit].cells@.no_duplicates(),
        row.len() == refiner.units@[unit].cells@.len(),
        all_placed(later) == with_row(
            without_cells(all_placed(start.bindings@), refiner.units@[unit].cells@),
            refiner.units@[unit].cells@,
            row,
        ),
    ensures
        link_delay(
            refiner.graph,
            refiner.constraints,
            refiner.units@[unit].cells@,
            row,
            moving,
            link,
            without_cells(all_placed(start.bindings@), refiner.units@[unit].cells@),
            delays,
        ) matches Some(delay) ==> bound_delay(refiner, later, link, delays) == Some(delay),
{
    let pins = refiner.graph.design.pins@;
    let cells = refiner.units@[unit].cells@;
    assert(start.bindings.len() == start.bindings@.len());
    if link.0.0 < pins.len() && link.1.0 < pins.len() {
        assert(pins[link.0.0 as int].cell.0 < refiner.graph.design.cells@.len());
        assert(pins[link.1.0 as int].cell.0 < refiner.graph.design.cells@.len());
        lemma_bel_on_row(start.bindings@, later, cells, row, pins[link.0.0 as int].cell);
        lemma_bel_on_row(start.bindings@, later, cells, row, pins[link.1.0 as int].cell);
    }
}

/// What proposing near moves goes through: the unit, its move, and what it leaves.
pub(crate) proof fn lemma_proposed<'a>(
    refiner: PlacementRefiner<'a>,
    start: Placement,
    cell: CellId,
    connections: &'a [(CellPinId, CellPinId)],
    targets: &'a [u64],
    delays: &'a [u32],
    projection: Option<&RouteCapacityProjection>,
    distance: u64,
    max_candidates: usize,
    list: Vec<Placement>,
) -> (found: (int, CellMove<'a>, Seq<BelId>, Seq<bool>, Seq<Option<BelId>>))
    requires
        proposals_outcome(
            refiner,
            start,
            cell,
            connections,
            targets,
            delays,
            projection,
            distance,
            max_candidates,
            Ok(list),
        ),
        list@.len() > 0,
    ensures
        0 <= found.0 < refiner.units@.len(),
        starts_legal(refiner.graph, refiner.constraints, refiner.units@, start.bindings@),
        is_cell_move(
            refiner,
            found.0,
            cell,
            connections,
            targets,
            delays,
            distance,
            found.1,
        ),
        is_lifted(refiner, found.0, start, found.2, found.3, found.4),
        proposed_for(
            refiner,
            found.0,
            start,
            found.1,
            projection,
            max_candidates,
            found.2,
            found.3,
            found.4,
            list@,
        ),
        targets@.len() == connections@.len(),
{
    let unit = choose|unit: int|
        {
            &&& 0 <= unit < refiner.units@.len()
            &&& (#[trigger] refiner.units@[unit]).cells@.contains(cell)
            &&& refiner.units@[unit].choices.count() > 1 && connections@.len() > 0
            &&& starts_legal(refiner.graph, refiner.constraints, refiner.units@, start.bindings@)
            &&& exists|
                step: CellMove<'_>,
                current: Seq<BelId>,
                occupied: Seq<bool>,
                placed: Seq<Option<BelId>>,
            |
                {
                    &&& #[trigger] is_cell_move(
                        refiner,
                        unit,
                        cell,
                        connections,
                        targets,
                        delays,
                        distance,
                        step,
                    )
                    &&& #[trigger] is_lifted(refiner, unit, start, current, occupied, placed)
                    &&& proposed_for(
                        refiner,
                        unit,
                        start,
                        step,
                        projection,
                        max_candidates,
                        current,
                        occupied,
                        placed,
                        list@,
                    )
                }
        };
    let (step, current, occupied, placed) = choose|
        step: CellMove<'_>,
        current: Seq<BelId>,
        occupied: Seq<bool>,
        placed: Seq<Option<BelId>>,
    |
        {
            &&& #[trigger] is_cell_move(
                refiner,
                unit,
                cell,
                connections,
                targets,
                delays,
                distance,
                step,
            )
            &&& #[trigger] is_lifted(refiner, unit, start, current, occupied, placed)
            &&& proposed_for(
                refiner,
                unit,
                start,
                step,
                projection,
                max_candidates,
                current,
                occupied,
                placed,
                list@,
            )
        };
    (unit, step, current, occupied, placed)
}

/// Every near proposal makes some connection faster that was above its target: such a
/// connection's local delay exceeds its target in the placement that was given, and is
/// less in the proposed one.
pub proof fn near_proposals_help_a_connection_above_its_target(
    refiner: PlacementRefiner<'_>,
    start: Placement,
    cell: CellId,
    connections: &[(CellPinId, CellPinId)],
    targets: &[u64],
    delays: &[u32],
    projection: Option<&RouteCapacityProjection>,
    distance: u64,
    max_candidates: usize,
    list: Vec<Placement>,
    at: int,
) -> (k: int)
    requires
        refiner.wf(),
        distance <= 2,
        proposals_outcome(
            refiner,
            start,
            cell,
            connections,
            targets,
            delays,
            projection,
            distance,
            max_candidates,
            Ok(list),
        ),
        0 <= at < list@.len(),
    ensures
        0 <= k < connections@.len(),
        bound_delay(refiner, start.bindings@, connections@[k], delays) matches Some(known)
            && bound_delay(refiner, list@[at].bindings@, connections@[k], delays) matches Some(
            found,
        ) && targets@[k] < known && found < known,
{
    let (unit, step, current, occupied, placed) = lemma_proposed(
        refiner,
        start,
        cell,
        connections,
        targets,
        delays,
        projection,
        distance,
        max_candidates,
        list,
    );
    let (ranking, chosen) = choose|ranking: Seq<RankedRow>, chosen: Seq<RankedRow>|
        {
            &&& #[trigger] step.is_ranking(current, occupied, placed, ranking)
            &&& #[trigger] step.is_selection(placed, projection, max_candidates, ranking, chosen)
            &&& crate::cell_refine::are_proposals(refiner, unit, start, chosen, list@)
        };
    assert(chosen == first_of(ranking, crate::cell_moves::at_least(max_candidates, 1) as int));
    assert(chosen[at] == ranking[at]);
    let index = ranking[at].choice as int;
    let cells = refiner.units@[unit].cells@;
    let row = refiner.units@[unit].choices.row(index);
    assert(step.is_candidate(current, occupied, placed, index));
    assert(unit_moved(refiner, unit, start, index, list@[at]));
    lemma_current_row(refiner, unit, start, current, occupied, placed);
    let later = list@[at].bindings@;
    assert(refiner.units@[unit].wf(refiner.graph, refiner.constraints));
    assert(row.len() == cells.len());
    let links = connections@;
    lemma_excess_parts(
        refiner.graph,
        refiner.constraints,
        cells,
        current,
        cell,
        links,
        targets@,
        placed,
        delays,
    );
    lemma_excess_parts(
        refiner.graph,
        refiner.constraints,
        cells,
        row,
        cell,
        links,
        targets@,
        placed,
        delays,
    );
    if forall|k: int|
        0 <= k < links.len() ==> {
            let known = link_delay(
                refiner.graph,
                refiner.constraints,
                cells,
                current,
                cell,
                #[trigger] links[k],
                placed,
                delays,
            )->0;
            let found = link_delay(
                refiner.graph,
                refiner.constraints,
                cells,
                row,
                cell,
                links[k],
                placed,
                delays,
            )->0;
            known <= targets@[k] || known <= found
        } {
        lemma_excess_order(
            refiner.graph,
            refiner.constraints,
            cells,
            current,
            row,
            cell,
            links,
            targets@,
            placed,
            delays,
        );
    }
    let k = choose|k: int|
        {
            let known = link_delay(
                refiner.graph,
                refiner.constraints,
                cells,
                current,
                cell,
                #[trigger] links[k],
                placed,
                delays,
            )->0;
            let found = link_delay(
                refiner.graph,
                refiner.constraints,
                cells,
                row,
                cell,
                links[k],
                placed,
                delays,
            )->0;
            0 <= k < links.len() && !(known <= targets@[k] || known <= found)
        };
    lemma_link_delay(refiner, unit, start, start.bindings@, current, cell, links[k], delays);
    lemma_link_delay(refiner, unit, start, later, row, cell, links[k], delays);
    k
}

/// Where the local delay of every listed connection is within its target, no near
/// move is proposed.
pub proof fn a_cell_within_its_targets_stays(
    refiner: PlacementRefiner<'_>,
    start: Placement,
    cell: CellId,
    connections: &[(CellPinId, CellPinId)],
    targets: &[u64],
    delays: &[u32],
    projection: Option<&RouteCapacityProjection>,
    distance: u64,
    max_candidates: usize,
    list: Vec<Placement>,
)
    requires
        refiner.wf(),
        distance <= 2,
        proposals_outcome(
            refiner,
            start,
            cell,
            connections,
            targets,
            delays,
            projection,
            distance,
            max_candidates,
            Ok(list),
        ),
        forall|k: int|
            0 <= k < connections@.len() ==> (bound_delay(
                refiner,
                start.bindings@,
                #[trigger] connections@[k],
                delays,
            ) matches Some(delay) ==> delay <= targets@[k]),
    ensures
        list@.len() == 0,
{
    if list@.len() > 0 {
        let k = near_proposals_help_a_connection_above_its_target(
            refiner,
            start,
            cell,
            connections,
            targets,
            delays,
            projection,
            distance,
            max_candidates,
            list,
            0,
        );
        assert(connections@[k] == connections@[k]);
    }
}

/// A connection that is within its target on a row adds nothing to the score of the
/// row: the score is the same whatever the target, as long as the delay is within it.
pub proof fn a_connection_within_its_target_does_not_score(
    graph: UnifiedGraph<'_>,
    constraints: &PlacementConstraints,
    cells: Seq<CellId>,
    row: Seq<BelId>,
    moving: CellId,
    links: Seq<(CellPinId, CellPinId)>,
    targets: Seq<u64>,
    placed: Seq<Option<BelId>>,
    delays: &[u32],
)
    requires
        links.len() > 0,
        targets.len() == links.len(),
        link_delay(graph, constraints, cells, row, moving, links.last(), placed, delays) matches
            Some(delay) && delay <= targets.last(),
    ensures
        total_excess(graph, constraints, cells, row, moving, links, targets, placed, delays)
            == total_excess(
            graph,
            constraints,
            cells,
            row,
            moving,
            links.drop_last(),
            targets.drop_last(),
            placed,
            delays,
        ),
{
    lemma_excess_prefix(
        graph,
        constraints,
        cells,
        row,
        moving,
        links.drop_last(),
        targets,
        targets.drop_last(),
        placed,
        delays,
    );
    assert(targets.last() == targets[links.len() - 1]);
}

/// Targets of other connections do not matter, and the sum is in range.
proof fn lemma_excess_prefix(
    graph: UnifiedGraph<'_>,
    constraints: &PlacementConstraints,
    cells: Seq<CellId>,
    row: Seq<BelId>,
    moving: CellId,
    links: Seq<(CellPinId, CellPinId)>,
    targets: Seq<u64>,
    others: Seq<u64>,
    placed: Seq<Option<BelId>>,
    delays: &[u32],
)
    requires
        links.len() <= targets.len(),
        links.len() <= others.len(),
        forall|k: int| 0 <= k < links.len() ==> #[trigger] targets[k] == others[k],
    ensures
        total_excess(graph, constraints, cells, row, moving, links, targets, placed, delays)
            == total_excess(
            graph,
            constraints,
            cells,
            row,
            moving,
            links,
            others,
            placed,
            delays,
        ),
        total_excess(
            graph,
            constraints,
            cells,
            row,
            moving,
            links,
            targets,
            placed,
            delays,
        ) matches Some(sum) ==> 0 <= sum <= u64::MAX,
    decreases links.len(),
{
    if links.len() > 0 {
        lemma_excess_prefix(
            graph,
            constraints,
            cells,
            row,
            moving,
            links.drop_last(),
            targets,
            others,
            placed,
            delays,
        );
        assert(targets[links.len() - 1] == others[links.len() - 1]);
    }
}

} // verus!
