//! Costs of placing a unit on one of its rows.

use vstd::prelude::*;

use crate::cost::{clip_u64, saturating_product};
use crate::device::Device;
use crate::model::{BelId, CellId, Point};
use crate::neighbors::{edge_cost, neighbors_in_range, refinement_edge_cost, PlacementNeighbor};

verus! {

/// Tile of a BEL.
pub open spec fn bel_point(device: &Device, bel: BelId) -> Point {
    device.bels@[bel.0 as int].point
}

/// Every placed BEL is one of the device.
pub open spec fn placed_on_device(device: &Device, placed: Seq<Option<BelId>>) -> bool {
    forall|c: int|
        0 <= c < placed.len() ==> (#[trigger] placed[c] matches Some(bel) ==> bel.0
            < device.bels@.len())
}

/// Cost of one edge: nothing within the unit or to an unplaced cell.
pub open spec fn outer_edge_cost(
    edge: PlacementNeighbor,
    cells: Seq<CellId>,
    point: Point,
    device: &Device,
    placed: Seq<Option<BelId>>,
) -> int {
    match placed[edge.cell.0 as int] {
        Some(bel) => if cells.contains(edge.cell) {
            0
        } else {
            edge_cost(edge, point.distance(bel_point(device, bel)))
        },
        None => 0,
    }
}

/// Sum of the edge costs of one cell.
pub open spec fn cell_cost(
    list: Seq<PlacementNeighbor>,
    cells: Seq<CellId>,
    point: Point,
    device: &Device,
    placed: Seq<Option<BelId>>,
) -> int
    decreases list.len(),
{
    if list.len() == 0 {
        0
    } else {
        cell_cost(list.drop_last(), cells, point, device, placed) + outer_edge_cost(
            list.last(),
            cells,
            point,
            device,
            placed,
        )
    }
}

/// Sum of the edge costs of the first cells of a unit.
pub open spec fn row_cost_upto(
    count: int,
    cells: Seq<CellId>,
    row: Seq<BelId>,
    device: &Device,
    neighbors: Seq<Vec<PlacementNeighbor>>,
    placed: Seq<Option<BelId>>,
) -> int
    decreases count,
{
    if count <= 0 {
        0
    } else {
        row_cost_upto(count - 1, cells, row, device, neighbors, placed) + cell_cost(
            neighbors[cells[count - 1].0 as int]@,
            cells,
            bel_point(device, row[count - 1]),
            device,
            placed,
        )
    }
}

/// Cost of the unit's edges to placed cells outside of it.
pub open spec fn row_cost(
    cells: Seq<CellId>,
    row: Seq<BelId>,
    device: &Device,
    neighbors: Seq<Vec<PlacementNeighbor>>,
    placed: Seq<Option<BelId>>,
) -> int {
    clip_u64(row_cost_upto(cells.len() as int, cells, row, device, neighbors, placed))
}

/// Whether a list holds the cell.
pub(crate) fn has_cell(cells: &Vec<CellId>, cell: CellId) -> (result: bool)
    ensures
        result == cells@.contains(cell),
{
    let mut at: usize = 0;
    while at < cells.len()
        invariant
            at <= cells@.len(),
            forall|k: int| 0 <= k < at ==> #[trigger] cells@[k] != cell,
        decreases cells@.len() - at,
    {
        if cells[at] == cell {
            return true;
        }
        at = at + 1;
    }
    false
}

/// Edge costs are not negative.
proof fn lemma_edge_cost_range(edge: PlacementNeighbor, distance: int)
    requires
        distance >= 0,
    ensures
        0 <= edge_cost(edge, distance) <= u64::MAX,
{
    let excess = if distance > edge.budget {
        distance - edge.budget
    } else {
        0
    };
    assert(excess * excess >= 0) by (nonlinear_arith);
    let pull = if edge.timing_driven {
        clip_u64(excess * excess)
    } else {
        excess
    };
    assert(edge.weight * pull >= 0) by (nonlinear_arith)
        requires
            pull >= 0,
            edge.weight >= 0,
    ;
}

/// Costs of cells are not negative.
proof fn lemma_cell_cost_range(
    list: Seq<PlacementNeighbor>,
    cells: Seq<CellId>,
    point: Point,
    device: &Device,
    placed: Seq<Option<BelId>>,
)
    ensures
        cell_cost(list, cells, point, device, placed) >= 0,
    decreases list.len(),
{
    if list.len() > 0 {
        lemma_cell_cost_range(list.drop_last(), cells, point, device, placed);
        let edge = list.last();
        if let Some(bel) = placed[edge.cell.0 as int] {
            lemma_edge_cost_range(edge, point.distance(bel_point(device, bel)));
        }
    }
}

/// Costs of rows are not negative.
pub proof fn lemma_row_cost_range(
    count: int,
    cells: Seq<CellId>,
    row: Seq<BelId>,
    device: &Device,
    neighbors: Seq<Vec<PlacementNeighbor>>,
    placed: Seq<Option<BelId>>,
)
    ensures
        row_cost_upto(count, cells, row, device, neighbors, placed) >= 0,
    decreases count,
{
    if count > 0 {
        lemma_row_cost_range(count - 1, cells, row, device, neighbors, placed);
        lemma_cell_cost_range(
            neighbors[cells[count - 1].0 as int]@,
            cells,
            bel_point(device, row[count - 1]),
            device,
            placed,
        );
    }
}

/// Cost of the unit's edges to placed cells outside of it.
pub(crate) fn assignment_wirelength(
    cells: &Vec<CellId>,
    assignment: &Vec<BelId>,
    device: &Device,
    neighbors: &Vec<Vec<PlacementNeighbor>>,
    placed: &Vec<Option<BelId>>,
) -> (result: u64)
    requires
        cells@.len() == assignment@.len(),
        neighbors_in_range(neighbors@, placed@.len() as int),
        placed_on_device(device, placed@),
        forall|k: int| 0 <= k < cells@.len() ==> (#[trigger] cells@[k]).0 < placed@.len(),
        forall|k: int|
            0 <= k < assignment@.len() ==> (#[trigger] assignment@[k]).0 < device.bels@.len(),
    ensures
        result == row_cost(cells@, assignment@, device, neighbors@, placed@),
{
    let mut total: u64 = 0;
    let mut at: usize = 0;
    while at < cells.len()
        invariant
            at <= cells@.len(),
            cells@.len() == assignment@.len(),
            neighbors_in_range(neighbors@, placed@.len() as int),
            placed_on_device(device, placed@),
            forall|k: int| 0 <= k < cells@.len() ==> (#[trigger] cells@[k]).0 < placed@.len(),
            forall|k: int|
                0 <= k < assignment@.len() ==> (#[trigger] assignment@[k]).0 < device.bels@.len(),
            total == clip_u64(
                row_cost_upto(at as int, cells@, assignment@, device, neighbors@, placed@),
            ),
        decreases cells@.len() - at,
    {
        assert(cells@[at as int].0 < placed@.len());
        assert(assignment@[at as int].0 < device.bels@.len());
        let cell = cells[at];
        let point = device.bels[assignment[at].0].point;
        let list = &neighbors[cell.0];
        let ghost base = row_cost_upto(at as int, cells@, assignment@, device, neighbors@, placed@);
        proof {
            lemma_row_cost_range(at as int, cells@, assignment@, device, neighbors@, placed@);
        }
        let mut edge: usize = 0;
        while edge < list.len()
            invariant
                edge <= list@.len(),
                at < cells@.len(),
                cell == cells@[at as int],
                cell.0 < placed@.len(),
                *list == neighbors@[cell.0 as int],
                neighbors_in_range(neighbors@, placed@.len() as int),
                placed_on_device(device, placed@),
                base >= 0,
                total == clip_u64(
                    base + cell_cost(list@.take(edge as int), cells@, point, device, placed@),
                ),
            decreases list@.len() - edge,
        {
            let link = list[edge];
            proof {
                assert(neighbors@[cell.0 as int]@[edge as int].cell.0 < placed@.len());
                assert(list@.take(edge + 1).drop_last() =~= list@.take(edge as int));
                assert(list@.take(edge + 1).last() == link);
                lemma_cell_cost_range(list@.take(edge as int), cells@, point, device, placed@);
            }
            if let Some(bel) = placed[link.cell.0] {
                assert(placed@[link.cell.0 as int] == Some(bel));
                if !has_cell(cells, link.cell) {
                    let distance: u64 = point.manhattan(device.bels[bel.0].point);
                    proof {
                        lemma_edge_cost_range(link, distance as int);
                    }
                    total = total.saturating_add(refinement_edge_cost(link, distance));
                }
            }
            edge = edge + 1;
        }
        assert(list@.take(edge as int) =~= list@);
        at = at + 1;
    }
    total
}

/// Pull of the edges of one cell to placed cells, with free distances not counted.
pub open spec fn cell_pull(
    list: Seq<PlacementNeighbor>,
    point: Point,
    device: &Device,
    placed: Seq<Option<BelId>>,
) -> int
    decreases list.len(),
{
    if list.len() == 0 {
        0
    } else {
        let edge = list.last();
        cell_pull(list.drop_last(), point, device, placed) + match placed[edge.cell.0 as int] {
            Some(bel) => clip_u64(edge.weight * point.distance(bel_point(device, bel))),
            None => 0,
        }
    }
}

/// Pull of the first cells of a unit.
pub open spec fn row_pull_upto(
    count: int,
    cells: Seq<CellId>,
    row: Seq<BelId>,
    device: &Device,
    neighbors: Seq<Vec<PlacementNeighbor>>,
    placed: Seq<Option<BelId>>,
) -> int
    decreases count,
{
    if count <= 0 {
        0
    } else {
        row_pull_upto(count - 1, cells, row, device, neighbors, placed) + cell_pull(
            neighbors[cells[count - 1].0 as int]@,
            bel_point(device, row[count - 1]),
            device,
            placed,
        )
    }
}

/// Pulls are not negative.
proof fn lemma_cell_pull_range(
    list: Seq<PlacementNeighbor>,
    point: Point,
    device: &Device,
    placed: Seq<Option<BelId>>,
)
    ensures
        cell_pull(list, point, device, placed) >= 0,
    decreases list.len(),
{
    if list.len() > 0 {
        lemma_cell_pull_range(list.drop_last(), point, device, placed);
        let edge = list.last();
        if let Some(bel) = placed[edge.cell.0 as int] {
            let distance = point.distance(bel_point(device, bel));
            assert(edge.weight * distance >= 0) by (nonlinear_arith)
                requires
                    distance >= 0,
                    edge.weight >= 0,
            ;
        }
    }
}

/// Pulls of rows are not negative.
proof fn lemma_row_pull_range(
    count: int,
    cells: Seq<CellId>,
    row: Seq<BelId>,
    device: &Device,
    neighbors: Seq<Vec<PlacementNeighbor>>,
    placed: Seq<Option<BelId>>,
)
    ensures
        row_pull_upto(count, cells, row, device, neighbors, placed) >= 0,
    decreases count,
{
    if count > 0 {
        lemma_row_pull_range(count - 1, cells, row, device, neighbors, placed);
        lemma_cell_pull_range(
            neighbors[cells[count - 1].0 as int]@,
            bel_point(device, row[count - 1]),
            device,
            placed,
        );
    }
}

/// Pull of a unit's edges to placed cells.
pub(crate) fn assignment_pull(
    cells: &Vec<CellId>,
    assignment: &Vec<BelId>,
    device: &Device,
    neighbors: &Vec<Vec<PlacementNeighbor>>,
    placed: &Vec<Option<BelId>>,
) -> (result: u64)
    requires
        cells@.len() == assignment@.len(),
        neighbors_in_range(neighbors@, placed@.len() as int),
        placed_on_device(device, placed@),
        forall|k: int| 0 <= k < cells@.len() ==> (#[trigger] cells@[k]).0 < placed@.len(),
        forall|k: int|
            0 <= k < assignment@.len() ==> (#[trigger] assignment@[k]).0 < device.bels@.len(),
    ensures
        result == clip_u64(
            row_pull_upto(
                cells@.len() as int,
                cells@,
                assignment@,
                device,
                neighbors@,
                placed@,
            ),
        ),
{
    let mut total: u64 = 0;
    let mut at: usize = 0;
    while at < cells.len()
        invariant
            at <= cells@.len(),
            cells@.len() == assignment@.len(),
            neighbors_in_range(neighbors@, placed@.len() as int),
            placed_on_device(device, placed@),
            forall|k: int| 0 <= k < cells@.len() ==> (#[trigger] cells@[k]).0 < placed@.len(),
            forall|k: int|
                0 <= k < assignment@.len() ==> (#[trigger] assignment@[k]).0 < device.bels@.len(),
            total == clip_u64(
                row_pull_upto(at as int, cells@, assignment@, device, neighbors@, placed@),
            ),
        decreases cells@.len() - at,
    {
        assert(cells@[at as int].0 < placed@.len());
        assert(assignment@[at as int].0 < device.bels@.len());
        let cell = cells[at];
        let point = device.bels[assignment[at].0].point;
        let list = &neighbors[cell.0];
        let ghost base = row_pull_upto(at as int, cells@, assignment@, device, neighbors@, placed@);
        proof {
            lemma_row_pull_range(at as int, cells@, assignment@, device, neighbors@, placed@);
        }
        let mut edge: usize = 0;
        while edge < list.len()
            invariant
                edge <= list@.len(),
                at < cells@.len(),
                cell == cells@[at as int],
                cell.0 < placed@.len(),
                *list == neighbors@[cell.0 as int],
                neighbors_in_range(neighbors@, placed@.len() as int),
                placed_on_device(device, placed@),
                base >= 0,
                total == clip_u64(
                    base + cell_pull(list@.take(edge as int), point, device, placed@),
                ),
            decreases list@.len() - edge,
        {
            let link = list[edge];
            proof {
                assert(neighbors@[cell.0 as int]@[edge as int].cell.0 < placed@.len());
                assert(list@.take(edge + 1).drop_last() =~= list@.take(edge as int));
                assert(list@.take(edge + 1).last() == link);
                lemma_cell_pull_range(list@.take(edge as int), point, device, placed@);
            }
            if let Some(bel) = placed[link.cell.0] {
                assert(placed@[link.cell.0 as int] == Some(bel));
                let distance: u64 = point.manhattan(device.bels[bel.0].point);
                proof {
                    assert(link.weight * distance >= 0) by (nonlinear_arith)
                        requires
                            distance >= 0,
                            link.weight >= 0,
                    ;
                }
                total = total.saturating_add(saturating_product(link.weight, distance));
            }
            edge = edge + 1;
        }
        assert(list@.take(edge as int) =~= list@);
        at = at + 1;
    }
    total
}

} // verus!
