//! Half-perimeter of the endpoints of a net under a placement.

use vstd::prelude::*;

use crate::bbox::extent_of;
use crate::device::{Device, UnifiedGraph};
use crate::model::{BelId, CellId, CellPinId, Design, Point, ResourceKind};
use crate::row_cost::bel_point;

verus! {

/// Axis of the device.
#[derive(Clone, Copy, Debug, PartialEq, Eq, Structural)]
pub enum Axis {
    /// Along a row.
    Column,
    /// Along a column.
    Row,
}

/// Coordinate of a point along an axis.
pub open spec fn along(point: Point, axis: Axis) -> u32 {
    match axis {
        Axis::Column => point.x,
        Axis::Row => point.y,
    }
}

/// Cell of the driver of a net.
pub open spec fn driver_cell(design: &Design, net: int) -> CellId {
    design.pins@[design.nets@[net].driver.0 as int].cell
}

/// The net is driven by a clock cell, which costs no wirelength.
pub open spec fn is_clock_net(design: &Design, net: int) -> bool {
    design.cells@[driver_cell(design, net).0 as int].kind == ResourceKind::Clock
}

/// Cells of the driver and the sinks of a net.
pub open spec fn net_cells(design: &Design, net: int) -> Seq<CellId> {
    Seq::new(
        (1 + design.nets@[net].sinks@.len()) as nat,
        |k: int|
            if k == 0 {
                driver_cell(design, net)
            } else {
                design.pins@[design.nets@[net].sinks@[k - 1].0 as int].cell
            },
    )
}

/// Cells whose tiles make up the box of a net.
pub open spec fn endpoints(design: &Design, net: int) -> Seq<CellId> {
    if is_clock_net(design, net) {
        Seq::empty()
    } else {
        net_cells(design, net)
    }
}

/// How often a cell occurs.
pub open spec fn occurrences(cells: Seq<CellId>, cell: CellId) -> int
    decreases cells.len(),
{
    if cells.len() == 0 {
        0
    } else {
        occurrences(cells.drop_last(), cell) + if cells.last() == cell {
            1int
        } else {
            0int
        }
    }
}

/// The slot's BEL lies at the coordinate.
pub open spec fn lies_at(
    device: &Device,
    slot: Option<BelId>,
    axis: Axis,
    coordinate: u32,
) -> bool {
    slot matches Some(bel) && along(bel_point(device, bel), axis) == coordinate
}

/// How many of the cells lie at the coordinate.
pub open spec fn hits(
    cells: Seq<CellId>,
    device: &Device,
    placed: Seq<Option<BelId>>,
    axis: Axis,
    coordinate: u32,
) -> int
    decreases cells.len(),
{
    if cells.len() == 0 {
        0
    } else {
        hits(cells.drop_last(), device, placed, axis, coordinate) + if lies_at(
            device,
            placed[cells.last().0 as int],
            axis,
            coordinate,
        ) {
            1int
        } else {
            0int
        }
    }
}

/// Coordinates of the cells.
pub open spec fn coordinates(
    cells: Seq<CellId>,
    device: &Device,
    placed: Seq<Option<BelId>>,
    axis: Axis,
) -> Set<u32> {
    Set::new(|c: u32| hits(cells, device, placed, axis, c) != 0)
}

/// Half of the perimeter of the box of a net.
pub open spec fn net_span(graph: UnifiedGraph<'_>, placed: Seq<Option<BelId>>, net: int) -> int {
    let cells = endpoints(graph.design, net);
    extent_of(coordinates(cells, graph.device, placed, Axis::Column)) + extent_of(
        coordinates(cells, graph.device, placed, Axis::Row),
    )
}

/// What one cell's slot adds to the hits.
pub open spec fn share_of(
    cells: Seq<CellId>,
    device: &Device,
    cell: CellId,
    slot: Option<BelId>,
    axis: Axis,
    coordinate: u32,
) -> int {
    if lies_at(device, slot, axis, coordinate) {
        occurrences(cells, cell)
    } else {
        0
    }
}

/// Changing one slot changes the hits by the cell's share.
pub proof fn lemma_slot_changes(
    cells: Seq<CellId>,
    device: &Device,
    placed: Seq<Option<BelId>>,
    cell: CellId,
    slot: Option<BelId>,
    axis: Axis,
    coordinate: u32,
)
    requires
        cell.0 < placed.len(),
        forall|k: int| 0 <= k < cells.len() ==> (#[trigger] cells[k]).0 < placed.len(),
    ensures
        hits(cells, device, placed.update(cell.0 as int, slot), axis, coordinate) == hits(
            cells,
            device,
            placed,
            axis,
            coordinate,
        ) - share_of(cells, device, cell, placed[cell.0 as int], axis, coordinate) + share_of(
            cells,
            device,
            cell,
            slot,
            axis,
            coordinate,
        ),
    decreases cells.len(),
{
    if cells.len() > 0 {
        let rest = cells.drop_last();
        assert forall|k: int| 0 <= k < rest.len() implies (#[trigger] rest[k]).0
            < placed.len() by {
            assert(rest[k] == cells[k]);
        }
        lemma_slot_changes(rest, device, placed, cell, slot, axis, coordinate);
        assert(cells[cells.len() - 1].0 < placed.len());
    }
}

/// There are no more hits than cells.
pub proof fn lemma_hits_bounded(
    cells: Seq<CellId>,
    device: &Device,
    placed: Seq<Option<BelId>>,
    axis: Axis,
    coordinate: u32,
)
    ensures
        0 <= hits(cells, device, placed, axis, coordinate) <= cells.len(),
    decreases cells.len(),
{
    if cells.len() > 0 {
        lemma_hits_bounded(cells.drop_last(), device, placed, axis, coordinate);
    }
}

/// A cell occurs no more often than there are cells.
pub proof fn lemma_occurrences_bounded(cells: Seq<CellId>, cell: CellId)
    ensures
        0 <= occurrences(cells, cell) <= cells.len(),
        occurrences(cells, cell) > 0 <==> cells.contains(cell),
    decreases cells.len(),
{
    if cells.len() > 0 {
        lemma_occurrences_bounded(cells.drop_last(), cell);
        if cells.drop_last().contains(cell) {
            let k = cells.drop_last().index_of(cell);
            assert(cells[k] == cell);
        }
        if cells.last() == cell {
            assert(cells[cells.len() - 1] == cell);
        }
        if cells.contains(cell) && cells.last() != cell {
            let k = cells.index_of(cell);
            assert(cells.drop_last()[k] == cell);
        }
    }
}

/// A hit comes from some cell.
pub proof fn lemma_hit_has_cell(
    cells: Seq<CellId>,
    device: &Device,
    placed: Seq<Option<BelId>>,
    axis: Axis,
    coordinate: u32,
) -> (index: int)
    requires
        hits(cells, device, placed, axis, coordinate) != 0,
    ensures
        0 <= index < cells.len(),
        lies_at(device, placed[cells[index].0 as int], axis, coordinate),
    decreases cells.len(),
{
    if lies_at(device, placed[cells.last().0 as int], axis, coordinate) {
        cells.len() - 1
    } else {
        lemma_hit_has_cell(cells.drop_last(), device, placed, axis, coordinate)
    }
}

/// A cell that lies at a coordinate is a hit.
pub proof fn lemma_cell_hits(
    cells: Seq<CellId>,
    device: &Device,
    placed: Seq<Option<BelId>>,
    axis: Axis,
    coordinate: u32,
    index: int,
)
    requires
        0 <= index < cells.len(),
        lies_at(device, placed[cells[index].0 as int], axis, coordinate),
    ensures
        hits(cells, device, placed, axis, coordinate) > 0,
    decreases cells.len(),
{
    lemma_hits_bounded(cells.drop_last(), device, placed, axis, coordinate);
    if index < cells.len() - 1 {
        lemma_cell_hits(cells.drop_last(), device, placed, axis, coordinate, index);
    }
}

/// Where cells lie along one axis, they lie along the other.
pub proof fn lemma_axes_match(
    cells: Seq<CellId>,
    device: &Device,
    placed: Seq<Option<BelId>>,
    axis: Axis,
    other: Axis,
)
    ensures
        coordinates(cells, device, placed, axis) == Set::<u32>::empty() ==> coordinates(
            cells,
            device,
            placed,
            other,
        ) == Set::<u32>::empty(),
{
    if coordinates(cells, device, placed, axis) == Set::<u32>::empty() {
        assert forall|c: u32| !coordinates(cells, device, placed, other).contains(c) by {
            if hits(cells, device, placed, other, c) != 0 {
                let k = lemma_hit_has_cell(cells, device, placed, other, c);
                let bel = placed[cells[k].0 as int]->0;
                let near = along(bel_point(device, bel), axis);
                lemma_cell_hits(cells, device, placed, axis, near, k);
                assert(coordinates(cells, device, placed, axis).contains(near));
            }
        }
        assert(coordinates(cells, device, placed, other) =~= Set::<u32>::empty());
    }
}

/// Slots of other cells do not matter.
pub proof fn lemma_hits_agree(
    cells: Seq<CellId>,
    device: &Device,
    a: Seq<Option<BelId>>,
    b: Seq<Option<BelId>>,
    axis: Axis,
    coordinate: u32,
)
    requires
        forall|k: int|
            0 <= k < cells.len() ==> a[(#[trigger] cells[k]).0 as int] == b[cells[k].0 as int],
    ensures
        hits(cells, device, a, axis, coordinate) == hits(cells, device, b, axis, coordinate),
    decreases cells.len(),
{
    if cells.len() > 0 {
        let rest = cells.drop_last();
        assert forall|k: int| 0 <= k < rest.len() implies a[(#[trigger] rest[k]).0 as int]
            == b[rest[k].0 as int] by {
            assert(rest[k] == cells[k]);
        }
        lemma_hits_agree(rest, device, a, b, axis, coordinate);
        assert(a[cells[cells.len() - 1].0 as int] == b[cells[cells.len() - 1].0 as int]);
    }
}

/// Slots of other cells do not matter for the box.
pub proof fn lemma_span_agrees(
    graph: UnifiedGraph<'_>,
    a: Seq<Option<BelId>>,
    b: Seq<Option<BelId>>,
    net: int,
)
    requires
        forall|k: int|
            0 <= k < endpoints(graph.design, net).len() ==> a[(#[trigger] endpoints(
                graph.design,
                net,
            )[k]).0 as int] == b[endpoints(graph.design, net)[k].0 as int],
    ensures
        net_span(graph, a, net) == net_span(graph, b, net),
{
    let cells = endpoints(graph.design, net);
    assert forall|axis: Axis, c: u32| #[trigger]
        hits(cells, graph.device, a, axis, c) == hits(cells, graph.device, b, axis, c) by {
        lemma_hits_agree(cells, graph.device, a, b, axis, c);
    }
    assert(coordinates(cells, graph.device, a, Axis::Column) =~= coordinates(
        cells,
        graph.device,
        b,
        Axis::Column,
    ));
    assert(coordinates(cells, graph.device, a, Axis::Row) =~= coordinates(
        cells,
        graph.device,
        b,
        Axis::Row,
    ));
}

/// The endpoints of a net are cells of the design, and no more than its pins.
pub proof fn lemma_endpoints(design: &Design, net: int)
    requires
        design.wf(),
        0 <= net < design.nets@.len(),
    ensures
        forall|k: int|
            0 <= k < endpoints(design, net).len() ==> (#[trigger] endpoints(design, net)[k]).0
                < design.cells@.len(),
        forall|k: int|
            0 <= k < net_cells(design, net).len() ==> (#[trigger] net_cells(design, net)[k]).0
                < design.cells@.len(),
        net_cells(design, net).len() <= design.pins@.len(),
        endpoints(design, net).len() <= design.pins@.len(),
{
    let record = design.nets@[net];
    assert(record.driver.0 < design.pins@.len());
    assert(design.pins@[record.driver.0 as int].cell.0 < design.cells@.len());
    assert forall|k: int| 0 <= k < net_cells(design, net).len() implies (#[trigger] net_cells(
        design,
        net,
    )[k]).0 < design.cells@.len() by {
        if k > 0 {
            assert(design.nets@[net].sinks@[k - 1].0 < design.pins@.len());
        }
    }
    let names = record.sinks@.push(record.driver);
    assert(names.no_duplicates()) by {
        assert forall|i: int, j: int| 0 <= i < names.len() && 0 <= j < names.len() && i
            != j implies names[i] != names[j] by {
            if i == names.len() - 1 {
                assert(record.sinks@.contains(names[j]));
            } else if j == names.len() - 1 {
                assert(record.sinks@.contains(names[i]));
            }
        }
    }
    let numbers = names.map_values(|p: CellPinId| p.0 as int);
    assert(numbers.no_duplicates()) by {
        assert forall|i: int, j: int| 0 <= i < numbers.len() && 0 <= j < numbers.len() && i
            != j implies numbers[i] != numbers[j] by {
            assert(names[i] != names[j]);
        }
    }
    numbers.unique_seq_to_set();
    let all = vstd::set_lib::set_int_range(0, design.pins@.len() as int);
    vstd::set_lib::lemma_int_range(0, design.pins@.len() as int);
    assert(numbers.to_set().subset_of(all)) by {
        assert forall|n: int| numbers.to_set().contains(n) implies all.contains(n) by {
            let i = numbers.index_of(n);
            if i < names.len() - 1 {
                assert(design.nets@[net].sinks@[i].0 < design.pins@.len());
            }
        }
    }
    vstd::set_lib::lemma_len_subset(numbers.to_set(), all);
}

} // verus!
