//! Refinement only ever lowers what the connections between units cost together.

use vstd::prelude::*;

use crate::connection_cost::column_of;
use crate::device::{Device, UnifiedGraph};
use crate::finish::all_placed;
use crate::model::{BelId, CellId, Connection, Design, NetId, Point};
use crate::neighbors::{
    are_neighbors, edge_cost, neighbors_of, neighbors_upto, PlacementNeighbor, PlacementWeights,
    StarEdge,
};
use crate::place::{is_refined_placement, is_start};
use crate::placement::Placement;
use crate::placement_constraints::PlacementConstraints;
use crate::pull_laws::{is_share, lemma_edge, lemma_share, may_pull};
use crate::refine::{choice_cost, is_cheapest, is_refined_choice, refine_step};
use crate::refine_passes::{
    are_passes, is_offer, is_pass_at, is_refine_order, lemma_order_names_units, refines,
    RefineOrder, RefinePass,
};
use crate::refiner::{limited_outcome, PlacementRefiner};
use crate::row_cost::{bel_point, cell_cost, outer_edge_cost, row_cost_upto};
use crate::standing::{stands_on, units_stand};
use crate::target_laws::lemma_column;
use crate::unit_list::are_units;
use crate::units::PlacementUnit;
use crate::usage_model::{
    cells_in_range, lemma_with_row, lemma_without_cells, with_row, without_cells,
};

verus! {

/// Entry of the connection in the caller's tables: that of the sink, or else that of
/// the net, or else one.
pub open spec fn asked_weight(weights: PlacementWeights<'_>, connection: Connection) -> int {
    if weights.sink_weights matches Some(table) && table@.contains_key(connection) {
        weights.sink_weights->0@[connection] as int
    } else if weights.net_weights matches Some(table) && table@.contains_key(connection.net) {
        weights.net_weights->0@[connection.net] as int
    } else {
        1
    }
}

/// Tiles that the connection may span at no cost by the caller's table.
pub open spec fn free_distance(weights: PlacementWeights<'_>, connection: Connection) -> int {
    if weights.sink_budgets matches Some(table) && table@.contains_key(connection) {
        weights.sink_budgets->0@[connection] as int
    } else {
        0
    }
}

/// Columns and rows between two tiles.
pub open spec fn tiles_between(a: Point, b: Point) -> int {
    (if a.x >= b.x {
        a.x - b.x
    } else {
        b.x - a.x
    }) + (if a.y >= b.y {
        a.y - b.y
    } else {
        b.y - a.y
    })
}

/// The number, or the largest one where it is out of range.
pub open spec fn at_most_max(value: int) -> int {
    if value <= u64::MAX {
        value
    } else {
        u64::MAX as int
    }
}

/// What a connection costs where its ends stand: its share of the fanout, times its
/// entry in the tables, times the tiles that it spans beyond its free distance, or
/// their square where the entry is above one.
pub open spec fn stretch_cost(
    design: &Design,
    device: &Device,
    weights: PlacementWeights<'_>,
    placed: Seq<Option<BelId>>,
    net: int,
    sink: int,
) -> int {
    let record = design.nets@[net];
    let pin = record.sinks@[sink];
    let connection = Connection { net: NetId(net as usize), sink: pin };
    let driver = design.pins@[record.driver.0 as int].cell;
    let driven = design.pins@[pin.0 as int].cell;
    let share = choose|share: int| is_share(share, record.sinks@.len());
    match (placed[driver.0 as int], placed[driven.0 as int]) {
        (Some(a), Some(b)) => if driver == driven || !may_pull(design, weights, net, sink) {
            0
        } else {
            let span = tiles_between(device.bels@[a.0 as int].point, device.bels@[b.0 as int].point);
            let free = free_distance(weights, connection);
            let excess = if span > free {
                span - free
            } else {
                0
            };
            let asked = asked_weight(weights, connection);
            at_most_max(
                at_most_max(share * asked) * if asked > 1 {
                    at_most_max(excess * excess)
                } else {
                    excess
                },
            )
        },
        _ => 0,
    }
}

/// Both cells belong to one unit.
pub open spec fn in_one_unit(units: Seq<PlacementUnit>, a: CellId, b: CellId) -> bool {
    exists|u: int|
        0 <= u < units.len() && (#[trigger] units[u]).cells@.contains(a)
            && units[u].cells@.contains(b)
}

/// What the connections between different units cost together, over the first nets
/// and the first sinks of the next.
pub open spec fn total_stretch(
    design: &Design,
    device: &Device,
    weights: PlacementWeights<'_>,
    units: Seq<PlacementUnit>,
    placed: Seq<Option<BelId>>,
    net: int,
    sink: int,
) -> int
    decreases net, sink,
{
    if sink > 0 {
        let record = design.nets@[net];
        total_stretch(design, device, weights, units, placed, net, sink - 1) + if in_one_unit(
            units,
            design.pins@[record.driver.0 as int].cell,
            design.pins@[record.sinks@[sink - 1].0 as int].cell,
        ) {
            0
        } else {
            stretch_cost(design, device, weights, placed, net, sink - 1)
        }
    } else if net > 0 {
        total_stretch(
            design,
            device,
            weights,
            units,
            placed,
            net - 1,
            design.nets@[net - 1].sinks@.len() as int,
        )
    } else {
        0
    }
}

/// What all connections between different units cost together.
pub open spec fn whole_stretch(
    graph: UnifiedGraph<'_>,
    weights: PlacementWeights<'_>,
    units: Seq<PlacementUnit>,
    placed: Seq<Option<BelId>>,
) -> int {
    total_stretch(
        graph.design,
        graph.device,
        weights,
        units,
        placed,
        graph.design.nets@.len() as int,
        0,
    )
}

/// A fanout has one share.
pub(crate) proof fn lemma_one_share(a: int, b: int, fanout: nat)
    requires
        is_share(a, fanout),
        is_share(b, fanout),
    ensures
        a == b,
{
    let sinks: int = if fanout == 0 {
        1
    } else {
        fanout as int
    };
    let r = choose|root: int|
        {
            &&& root > 0
            &&& #[trigger] (root * root) >= sinks
            &&& (root - 1) * (root - 1) < sinks
            &&& a == if root > 64 {
                1
            } else {
                64int / root
            }
        };
    let s = choose|root: int|
        {
            &&& root > 0
            &&& #[trigger] (root * root) >= sinks
            &&& (root - 1) * (root - 1) < sinks
            &&& b == if root > 64 {
                1
            } else {
                64int / root
            }
        };
    if r < s {
        assert((s - 1) * (s - 1) >= r * r) by (nonlinear_arith)
            requires
                0 < r <= s - 1,
        ;
    }
    if s < r {
        assert((r - 1) * (r - 1) >= s * s) by (nonlinear_arith)
            requires
                0 < s <= r - 1,
        ;
    }
}

/// The edge of a connection.
pub open spec fn edge_of(design: &Design, weights: PlacementWeights<'_>, net: int, sink: int) -> StarEdge {
    weights.edge(
        design,
        crate::neighbors::fanout_weight(design.nets@[net].sinks@.len()),
        net,
        sink,
    )
}

/// The edge pulls.
pub open spec fn is_live(edge: StarEdge) -> bool {
    edge.driver != edge.sink && edge.weight != 0
}

/// The edge seen from one end.
pub open spec fn toward(edge: StarEdge, cell: CellId) -> PlacementNeighbor {
    PlacementNeighbor {
        cell,
        weight: edge.weight,
        timing_driven: edge.timing_driven,
        budget: edge.budget,
    }
}

/// What an edge costs where its ends stand.
spec fn edge_stretch(edge: StarEdge, device: &Device, placed: Seq<Option<BelId>>) -> int {
    match (placed[edge.driver.0 as int], placed[edge.sink.0 as int]) {
        (Some(a), Some(b)) => if is_live(edge) {
            edge_cost(toward(edge, edge.sink), bel_point(device, a).distance(bel_point(device, b)))
        } else {
            0
        },
        _ => 0,
    }
}

/// A connection costs what its edge costs.
proof fn lemma_stretch(
    design: &Design,
    device: &Device,
    weights: PlacementWeights<'_>,
    placed: Seq<Option<BelId>>,
    net: int,
    sink: int,
)
    requires
        0 <= net < design.nets@.len(),
        design.nets@.len() <= usize::MAX,
        0 <= sink < design.nets@[net].sinks@.len(),
    ensures
        stretch_cost(design, device, weights, placed, net, sink) == edge_stretch(
            edge_of(design, weights, net, sink),
            device,
            placed,
        ),
        stretch_cost(design, device, weights, placed, net, sink) >= 0,
{
    lemma_edge(design, weights, net, sink);
    let record = design.nets@[net];
    let edge = edge_of(design, weights, net, sink);
    let known = crate::neighbors::fanout_weight(record.sinks@.len()) as int;
    lemma_share(record.sinks@.len());
    let share = choose|share: int| is_share(share, record.sinks@.len());
    lemma_one_share(share, known, record.sinks@.len());
    let connection = Connection { net: NetId(net as usize), sink: record.sinks@[sink] };
    let asked = asked_weight(weights, connection);
    assert(share * 1 == share);
    if let (Some(a), Some(b)) = (placed[edge.driver.0 as int], placed[edge.sink.0 as int]) {
        let span = tiles_between(device.bels@[a.0 as int].point, device.bels@[b.0 as int].point);
        assert(span == bel_point(device, a).distance(bel_point(device, b)));
        let free = free_distance(weights, connection);
        assert(edge.budget == free);
        let excess = if span > free {
            span - free
        } else {
            0
        };
        assert(excess * excess >= 0) by (nonlinear_arith);
        let pull = if asked > 1 {
            at_most_max(excess * excess)
        } else {
            excess
        };
        assert(0 <= share * asked) by (nonlinear_arith)
            requires
                0 <= share,
                0 <= asked,
        ;
        let weight = at_most_max(share * asked);
        assert(0 <= weight * pull) by (nonlinear_arith)
            requires
                0 <= weight,
                0 <= pull,
        ;
        if may_pull(design, weights, net, sink) {
            assert(edge.weight == weight);
            assert(edge.timing_driven == (asked > 1));
            if edge.weight == 0 {
                assert(weight * pull == 0) by (nonlinear_arith)
                    requires
                        weight == 0,
                ;
            }
        }
    }
}

/// What the row of a unit pays for an edge at one end of it.
spec fn end_cost(
    edge: StarEdge,
    end: CellId,
    other: CellId,
    cells: Seq<CellId>,
    row: Seq<BelId>,
    device: &Device,
    empty: Seq<Option<BelId>>,
    count: int,
) -> int {
    match column_of(cells, end) {
        Some(column) => if column < count && is_live(edge) {
            outer_edge_cost(
                toward(edge, other),
                cells,
                bel_point(device, row[column]),
                device,
                empty,
            )
        } else {
            0
        },
        None => 0,
    }
}

/// What the row of a unit pays for an edge.
spec fn row_edge_cost(
    edge: StarEdge,
    cells: Seq<CellId>,
    row: Seq<BelId>,
    device: &Device,
    empty: Seq<Option<BelId>>,
    count: int,
) -> int {
    end_cost(edge, edge.driver, edge.sink, cells, row, device, empty, count) + end_cost(
        edge,
        edge.sink,
        edge.driver,
        cells,
        row,
        device,
        empty,
        count,
    )
}

/// Cost of the first cells of a unit by the edges so far.
pub open spec fn partial_row_cost(
    design: &Design,
    weights: PlacementWeights<'_>,
    cells: Seq<CellId>,
    row: Seq<BelId>,
    device: &Device,
    empty: Seq<Option<BelId>>,
    count: int,
    net: int,
    sink: int,
) -> int
    decreases count,
{
    if count <= 0 {
        0
    } else {
        partial_row_cost(design, weights, cells, row, device, empty, count - 1, net, sink)
            + cell_cost(
            neighbors_upto(design, weights, cells[count - 1], net, sink),
            cells,
            bel_point(device, row[count - 1]),
            device,
            empty,
        )
    }
}

/// One more edge adds what the row pays for it.
proof fn lemma_one_more_edge(
    design: &Design,
    weights: PlacementWeights<'_>,
    cells: Seq<CellId>,
    row: Seq<BelId>,
    device: &Device,
    empty: Seq<Option<BelId>>,
    count: int,
    net: int,
    sink: int,
)
    requires
        cells.no_duplicates(),
        0 <= count <= cells.len(),
        0 <= sink,
    ensures
        partial_row_cost(design, weights, cells, row, device, empty, count, net, sink + 1)
            == partial_row_cost(design, weights, cells, row, device, empty, count, net, sink)
            + row_edge_cost(
            edge_of(design, weights, net, sink),
            cells,
            row,
            device,
            empty,
            count,
        ),
    decreases count,
{
    let edge = edge_of(design, weights, net, sink);
    lemma_column(cells, edge.driver);
    lemma_column(cells, edge.sink);
    if count > 0 {
        lemma_one_more_edge(design, weights, cells, row, device, empty, count - 1, net, sink);
        let cell = cells[count - 1];
        let list = neighbors_upto(design, weights, cell, net, sink);
        let longer = neighbors_upto(design, weights, cell, net, sink + 1);
        assert(longer == crate::neighbors::with_edge(list, edge, cell));
        if is_live(edge) {
            if cell == edge.driver {
                assert(column_of(cells, edge.driver) == Some(count - 1));
                assert(longer =~= list.push(toward(edge, edge.sink)));
                assert(longer.drop_last() =~= list);
            } else if cell == edge.sink {
                assert(column_of(cells, edge.sink) == Some(count - 1));
                assert(longer =~= list.push(toward(edge, edge.driver)));
                assert(longer.drop_last() =~= list);
            }
        }
        if cell != edge.driver {
            assert(column_of(cells, edge.driver) != Some(count - 1));
        }
        if cell != edge.sink {
            assert(column_of(cells, edge.sink) != Some(count - 1));
        }
    }
}

/// Nothing is paid before the first edge.
proof fn lemma_no_edges(
    design: &Design,
    weights: PlacementWeights<'_>,
    cells: Seq<CellId>,
    row: Seq<BelId>,
    device: &Device,
    empty: Seq<Option<BelId>>,
    count: int,
)
    ensures
        partial_row_cost(design, weights, cells, row, device, empty, count, 0, 0) == 0,
    decreases count,
{
    if count > 0 {
        lemma_no_edges(design, weights, cells, row, device, empty, count - 1);
    }
}

/// The edges of a net are all edges before the next net.
proof fn lemma_next_net(
    design: &Design,
    weights: PlacementWeights<'_>,
    cells: Seq<CellId>,
    row: Seq<BelId>,
    device: &Device,
    empty: Seq<Option<BelId>>,
    count: int,
    net: int,
)
    requires
        0 < net,
    ensures
        partial_row_cost(design, weights, cells, row, device, empty, count, net, 0)
            == partial_row_cost(
            design,
            weights,
            cells,
            row,
            device,
            empty,
            count,
            net - 1,
            design.nets@[net - 1].sinks@.len() as int,
        ),
    decreases count,
{
    if count > 0 {
        lemma_next_net(design, weights, cells, row, device, empty, count - 1, net);
    }
}

/// The cost of a row is made of all edges.
pub(crate) proof fn lemma_whole_row_cost(
    design: &Design,
    weights: PlacementWeights<'_>,
    lists: Seq<Vec<PlacementNeighbor>>,
    cells: Seq<CellId>,
    row: Seq<BelId>,
    device: &Device,
    empty: Seq<Option<BelId>>,
    count: int,
)
    requires
        are_neighbors(design, weights, lists),
        cells_in_range(cells, lists.len() as int),
        0 <= count <= cells.len(),
    ensures
        row_cost_upto(count, cells, row, device, lists, empty) == partial_row_cost(
            design,
            weights,
            cells,
            row,
            device,
            empty,
            count,
            design.nets@.len() as int,
            0,
        ),
    decreases count,
{
    if count > 0 {
        lemma_whole_row_cost(design, weights, lists, cells, row, device, empty, count - 1);
        let cell = cells[count - 1];
        assert(CellId(cell.0 as int as usize) == cell);
        assert(lists[cell.0 as int]@ == neighbors_of(design, weights, cell));
    }
}

/// A listed unit and its cells.
pub open spec fn is_unit_at(
    graph: UnifiedGraph<'_>,
    constraints: &PlacementConstraints,
    units: Seq<PlacementUnit>,
    unit: int,
) -> bool {
    0 <= unit < units.len() && are_units(graph, constraints, units)
}

/// What one edge costs, less what the row pays for it, does not depend on the row.
proof fn lemma_edge_shift(
    graph: UnifiedGraph<'_>,
    constraints: &PlacementConstraints,
    units: Seq<PlacementUnit>,
    unit: int,
    edge: StarEdge,
    empty: Seq<Option<BelId>>,
    row: Seq<BelId>,
)
    requires
        is_unit_at(graph, constraints, units, unit),
        empty.len() == graph.design.cells@.len(),
        empty.len() <= usize::MAX,
        row.len() == units[unit].cells@.len(),
        edge.driver.0 < empty.len(),
        edge.sink.0 < empty.len(),
    ensures
        ({
            let cells = units[unit].cells@;
            let placed = with_row(empty, cells, row);
            let paid = row_edge_cost(edge, cells, row, graph.device, empty, cells.len() as int);
            if in_one_unit(units, edge.driver, edge.sink) {
                cells.contains(edge.driver) ==> paid == 0
            } else if cells.contains(edge.driver) || cells.contains(edge.sink) {
                edge_stretch(edge, graph.device, placed) == paid
            } else {
                paid == 0 && edge_stretch(edge, graph.device, placed) == edge_stretch(
                    edge,
                    graph.device,
                    empty,
                )
            }
        }),
        in_one_unit(units, edge.driver, edge.sink) ==> row_edge_cost(
            edge,
            units[unit].cells@,
            row,
            graph.device,
            empty,
            units[unit].cells@.len() as int,
        ) == 0,
{
    let cells = units[unit].cells@;
    assert(units[unit].wf(graph, constraints));
    lemma_with_row(empty, cells, row);
    lemma_column(cells, edge.driver);
    lemma_column(cells, edge.sink);
    assert(CellId(edge.driver.0 as int as usize) == edge.driver);
    assert(CellId(edge.sink.0 as int as usize) == edge.sink);
    let placed = with_row(empty, cells, row);
    if cells.contains(edge.driver) && cells.contains(edge.sink) {
        assert(units[unit].cells@.contains(edge.driver));
        assert(in_one_unit(units, edge.driver, edge.sink));
    }
    if in_one_unit(units, edge.driver, edge.sink) {
        let u = choose|u: int|
            0 <= u < units.len() && (#[trigger] units[u]).cells@.contains(edge.driver)
                && units[u].cells@.contains(edge.sink);
        let i = units[u].cells@.index_of(edge.driver);
        let j = units[u].cells@.index_of(edge.sink);
        if cells.contains(edge.driver) {
            let k = cells.index_of(edge.driver);
            assert(units[u].cells@[i] == units[unit].cells@[k]);
            assert(u == unit);
        }
        if cells.contains(edge.sink) {
            let k = cells.index_of(edge.sink);
            assert(units[u].cells@[j] == units[unit].cells@[k]);
            assert(u == unit);
        }
    } else {
        if let Some(column) = column_of(cells, edge.driver) {
            assert(placed[cells[column].0 as int] == Some(row[column]));
            assert(cells.contains(cells[column]));
            assert(!cells.contains(edge.sink));
            assert(placed[edge.sink.0 as int] == empty[edge.sink.0 as int]);
        } else {
            assert(placed[edge.driver.0 as int] == empty[edge.driver.0 as int]);
            if let Some(column) = column_of(cells, edge.sink) {
                assert(placed[cells[column].0 as int] == Some(row[column]));
                assert(cells.contains(cells[column]));
            } else {
                assert(placed[edge.sink.0 as int] == empty[edge.sink.0 as int]);
            }
        }
    }
}

/// The costs so far, less what the row of the unit pays, do not depend on the row.
pub(crate) proof fn lemma_total_shift(
    graph: UnifiedGraph<'_>,
    constraints: &PlacementConstraints,
    weights: PlacementWeights<'_>,
    units: Seq<PlacementUnit>,
    unit: int,
    empty: Seq<Option<BelId>>,
    row: Seq<BelId>,
    other: Seq<BelId>,
    net: int,
    sink: int,
)
    requires
        graph.design.wf(),
        graph.design.nets@.len() <= usize::MAX,
        is_unit_at(graph, constraints, units, unit),
        empty.len() == graph.design.cells@.len(),
        empty.len() <= usize::MAX,
        row.len() == units[unit].cells@.len(),
        other.len() == units[unit].cells@.len(),
        0 <= net <= graph.design.nets@.len(),
        sink == 0 || (net < graph.design.nets@.len() && 0 <= sink
            <= graph.design.nets@[net].sinks@.len()),
    ensures
        ({
            let cells = units[unit].cells@;
            let count = cells.len() as int;
            let design = graph.design;
            let device = graph.device;
            total_stretch(
                design,
                device,
                weights,
                units,
                with_row(empty, cells, row),
                net,
                sink,
            ) - partial_row_cost(design, weights, cells, row, device, empty, count, net, sink)
                == total_stretch(
                design,
                device,
                weights,
                units,
                with_row(empty, cells, other),
                net,
                sink,
            ) - partial_row_cost(design, weights, cells, other, device, empty, count, net, sink)
        }),
    decreases net, sink,
{
    let cells = units[unit].cells@;
    let count = cells.len() as int;
    let design = graph.design;
    let device = graph.device;
    assert(units[unit].wf(graph, constraints));
    if sink > 0 {
        lemma_total_shift(
            graph,
            constraints,
            weights,
            units,
            unit,
            empty,
            row,
            other,
            net,
            sink - 1,
        );
        lemma_one_more_edge(design, weights, cells, row, device, empty, count, net, sink - 1);
        lemma_one_more_edge(design, weights, cells, other, device, empty, count, net, sink - 1);
        let edge = edge_of(design, weights, net, sink - 1);
        let record = design.nets@[net];
        assert(record.driver.0 < design.pins@.len());
        assert(record.sinks@[sink - 1].0 < design.pins@.len());
        assert(edge.driver == design.pins@[record.driver.0 as int].cell);
        assert(edge.sink == design.pins@[record.sinks@[sink - 1].0 as int].cell);
        lemma_edge_shift(graph, constraints, units, unit, edge, empty, row);
        lemma_edge_shift(graph, constraints, units, unit, edge, empty, other);
        lemma_stretch(design, device, weights, with_row(empty, cells, row), net, sink - 1);
        lemma_stretch(design, device, weights, with_row(empty, cells, other), net, sink - 1);
    } else if net > 0 {
        lemma_total_shift(
            graph,
            constraints,
            weights,
            units,
            unit,
            empty,
            row,
            other,
            net - 1,
            design.nets@[net - 1].sinks@.len() as int,
        );
        lemma_next_net(design, weights, cells, row, device, empty, count, net);
        lemma_next_net(design, weights, cells, other, device, empty, count, net);
    } else {
        lemma_no_edges(design, weights, cells, row, device, empty, count);
        lemma_no_edges(design, weights, cells, other, device, empty, count);
    }
}

/// A placement whose unit stands on a row is that row beside the other cells.
proof fn lemma_standing_row(
    unit: PlacementUnit,
    placed: Seq<Option<BelId>>,
    current: int,
)
    requires
        unit.cells@.no_duplicates(),
        cells_in_range(unit.cells@, placed.len() as int),
        placed.len() <= usize::MAX,
        unit.choices.row(current).len() == unit.cells@.len(),
        stands_on(unit, placed, current),
    ensures
        with_row(without_cells(placed, unit.cells@), unit.cells@, unit.choices.row(current))
            == placed,
{
    let cells = unit.cells@;
    let empty = without_cells(placed, cells);
    let row = unit.choices.row(current);
    lemma_without_cells(placed, cells);
    lemma_with_row(empty, cells, row);
    let again = with_row(empty, cells, row);
    assert forall|c: int| 0 <= c < placed.len() implies again[c] == placed[c] by {
        let cell = CellId(c as usize);
        if cells.contains(cell) {
            let k = cells.index_of(cell);
            assert(again[cells[k].0 as int] == Some(row[k]));
            assert(placed[cells[k].0 as int] == Some(row[k]));
        } else {
            assert(empty[c] == placed[c]);
            assert(again[c] == empty[c]);
        }
    }
    assert(again =~= placed);
}

/// An offer keeps the placement, or lowers the whole.
proof fn lemma_step_lowers(
    graph: UnifiedGraph<'_>,
    constraints: &PlacementConstraints,
    weights: PlacementWeights<'_>,
    units: Seq<PlacementUnit>,
    lists: Seq<Vec<PlacementNeighbor>>,
    unit: int,
    before: Seq<Option<BelId>>,
    after: Seq<Option<BelId>>,
    moved: bool,
)
    requires
        graph.design.wf(),
        graph.design.nets@.len() <= usize::MAX,
        is_unit_at(graph, constraints, units, unit),
        are_neighbors(graph.design, weights, lists),
        before.len() == graph.design.cells@.len(),
        before.len() <= usize::MAX,
        refine_step(graph, constraints, lists, units[unit], before, after, moved),
    ensures
        after.len() == before.len(),
        after == before || whole_stretch(graph, weights, units, after) < whole_stretch(
            graph,
            weights,
            units,
            before,
        ),
{
    let one = units[unit];
    let cells = one.cells@;
    let empty = without_cells(before, cells);
    assert(one.wf(graph, constraints));
    lemma_without_cells(before, cells);
    if one.choices.count() > 1 && moved {
        let (current, occupied, choice) = choose|
            current: int,
            occupied: Seq<bool>,
            choice: Option<int>,
        |
            {
                &&& #[trigger] stands_on(one, before, current)
                &&& occupied.len() == graph.device.bels@.len()
                &&& crate::placement_state::marks_taken(occupied, empty)
                &&& #[trigger] is_refined_choice(
                    graph,
                    constraints,
                    lists,
                    occupied,
                    empty,
                    one,
                    choice,
                )
                &&& moved == (choice matches Some(index) && choice_cost(
                    graph,
                    lists,
                    empty,
                    one,
                    index,
                ) < choice_cost(graph, lists, empty, one, current))
                &&& after == if moved {
                    with_row(empty, cells, one.choices.row(choice->0))
                } else {
                    before
                }
            };
        let index = choice->0;
        assert(0 <= index < one.choices.count()) by {
            let target = crate::refine::pull_center(cells, graph.device, lists, empty)->0;
            let found = choose|found: crate::ordered::OrderedSet<usize>|
                {
                    &&& found.wf()
                    &&& #[trigger] crate::nearest::are_nearest(
                        graph,
                        constraints,
                        occupied,
                        empty,
                        one,
                        target,
                        found,
                    )
                    &&& is_cheapest(graph, lists, empty, one, found, index)
                };
            let at = choose|at: int|
                0 <= at < found.ordered().len() && #[trigger] found.ordered()[at] == index;
            found.membership(found.ordered()[at]);
            assert(found.ordered().contains(found.ordered()[at]));
            assert(found@.contains(index as usize));
        }
        let row = one.choices.row(current);
        let other = one.choices.row(index);
        assert(crate::units::row_fits(graph, constraints, cells, row));
        assert(crate::units::row_fits(graph, constraints, cells, other));
        lemma_standing_row(one, before, current);
        lemma_with_row(empty, cells, other);
        let count = cells.len() as int;
        lemma_whole_row_cost(graph.design, weights, lists, cells, row, graph.device, empty, count);
        lemma_whole_row_cost(
            graph.design,
            weights,
            lists,
            cells,
            other,
            graph.device,
            empty,
            count,
        );
        lemma_total_shift(
            graph,
            constraints,
            weights,
            units,
            unit,
            empty,
            row,
            other,
            graph.design.nets@.len() as int,
            0,
        );
    }
}

/// The later placement is the earlier one, or costs less as a whole.
pub open spec fn stays_or_lowers(
    graph: UnifiedGraph<'_>,
    weights: PlacementWeights<'_>,
    units: Seq<PlacementUnit>,
    before: Seq<Option<BelId>>,
    after: Seq<Option<BelId>>,
) -> bool {
    after == before || whole_stretch(graph, weights, units, after) < whole_stretch(
        graph,
        weights,
        units,
        before,
    )
}

/// The first offers of a pass keep the placement, or lower the whole.
proof fn lemma_pass_lowers(
    graph: UnifiedGraph<'_>,
    constraints: &PlacementConstraints,
    weights: PlacementWeights<'_>,
    units: Seq<PlacementUnit>,
    lists: Seq<Vec<PlacementNeighbor>>,
    order: Seq<RefineOrder>,
    limit: Option<usize>,
    earlier: Set<usize>,
    pass: RefinePass,
    count: int,
)
    requires
        graph.design.wf(),
        graph.design.nets@.len() <= usize::MAX,
        are_units(graph, constraints, units),
        units.len() <= usize::MAX,
        are_neighbors(graph.design, weights, lists),
        is_refine_order(units, lists, order),
        crate::refine_passes::is_pass_so_far(
            graph,
            constraints,
            units,
            lists,
            order,
            limit,
            earlier,
            pass,
        ),
        pass.0[0].len() == graph.design.cells@.len(),
        pass.0[0].len() <= usize::MAX,
        0 <= count < pass.0.len(),
    ensures
        pass.0[count].len() == pass.0[0].len(),
        stays_or_lowers(graph, weights, units, pass.0[0], pass.0[count]),
    decreases count,
{
    if count > 0 {
        lemma_pass_lowers(
            graph,
            constraints,
            weights,
            units,
            lists,
            order,
            limit,
            earlier,
            pass,
            count - 1,
        );
        assert(is_offer(graph, constraints, units, lists, order, pass, count - 1));
        lemma_order_names_units(units, lists, order, count - 1);
        lemma_step_lowers(
            graph,
            constraints,
            weights,
            units,
            lists,
            order[count - 1].index as int,
            pass.0[count - 1],
            pass.0[count],
            pass.1[count - 1],
        );
    }
}

/// The first passes keep the placement, or lower the whole.
proof fn lemma_passes_lower(
    graph: UnifiedGraph<'_>,
    constraints: &PlacementConstraints,
    weights: PlacementWeights<'_>,
    units: Seq<PlacementUnit>,
    lists: Seq<Vec<PlacementNeighbor>>,
    order: Seq<RefineOrder>,
    limit: Option<usize>,
    passes: Seq<RefinePass>,
    at: int,
)
    requires
        graph.design.wf(),
        graph.design.nets@.len() <= usize::MAX,
        are_units(graph, constraints, units),
        units.len() <= usize::MAX,
        are_neighbors(graph.design, weights, lists),
        is_refine_order(units, lists, order),
        are_passes(graph, constraints, units, lists, order, limit, passes),
        0 <= at < passes.len(),
        passes[0].0[0].len() == graph.design.cells@.len(),
        passes[0].0[0].len() <= usize::MAX,
    ensures
        passes[at].0.last().len() == passes[0].0[0].len(),
        stays_or_lowers(graph, weights, units, passes[0].0[0], passes[at].0.last()),
    decreases at,
{
    assert(is_pass_at(graph, constraints, units, lists, order, limit, passes, at));
    if at > 0 {
        lemma_passes_lower(
            graph,
            constraints,
            weights,
            units,
            lists,
            order,
            limit,
            passes,
            at - 1,
        );
    }
    lemma_pass_lowers(
        graph,
        constraints,
        weights,
        units,
        lists,
        order,
        limit,
        crate::refine_passes::moved_in(order, passes.take(at)),
        passes[at],
        passes[at].0.len() - 1,
    );
}

/// A refined placement is the one that was given, or its connections between
/// different units cost less together, by the caller's tables of weights and free
/// distances.
pub proof fn refinement_keeps_or_lowers(
    graph: UnifiedGraph<'_>,
    constraints: &PlacementConstraints,
    known: &Vec<PlacementUnit>,
    weights: PlacementWeights<'_>,
    limit: Option<usize>,
    start: &Vec<BelId>,
    placement: Placement,
    peak: int,
)
    requires
        graph.wf(),
        are_units(graph, constraints, known@),
        start@.len() == graph.design.cells@.len(),
        is_refined_placement(
            graph,
            constraints,
            weights,
            limit,
            Some(start@),
            placement,
            peak,
        ),
    ensures
        placement.bindings@ == start@ || whole_stretch(
            graph,
            weights,
            known@,
            all_placed(placement.bindings@),
        ) < whole_stretch(graph, weights, known@, all_placed(start@)),
{
    let (units, lists, placed) = choose|
        units: Seq<PlacementUnit>,
        lists: Seq<Vec<PlacementNeighbor>>,
        placed: Seq<Option<BelId>>,
    |
        {
            &&& #[trigger] are_units(graph, constraints, units)
            &&& are_neighbors(graph.design, weights, lists)
            &&& units_stand(units, placed)
            &&& is_start(graph, constraints, weights, units, lists, Some(start@), placed)
            &&& #[trigger] refines(
                graph,
                constraints,
                units,
                lists,
                limit,
                placed,
                all_placed(placement.bindings@),
                peak,
            )
        };
    let (order, passes) = choose|order: Seq<RefineOrder>, passes: Seq<RefinePass>|
        {
            &&& is_refine_order(units, lists, order)
            &&& #[trigger] are_passes(graph, constraints, units, lists, order, limit, passes)
            &&& 0 < passes.len()
            &&& passes[0].0[0] == placed
            &&& passes.last().0.last() == all_placed(placement.bindings@)
        };
    crate::refine_unique::lemma_units_unique(graph, constraints, units, known@);
    assert(known.len() == known@.len());
    assert(start.len() == start@.len());
    assert(graph.design.nets.len() == graph.design.nets@.len());
    lemma_passes_lower(
        graph,
        constraints,
        weights,
        units,
        lists,
        order,
        limit,
        passes,
        passes.len() - 1,
    );
    let x = placement.bindings@;
    assert(all_placed(x).len() == x.len());
    assert(all_placed(start@).len() == start@.len());
    lemma_same_units_stretch(graph, weights, units, known@, all_placed(x));
    lemma_same_units_stretch(graph, weights, units, known@, all_placed(start@));
    if all_placed(x) == all_placed(start@) {
        assert forall|c: int| 0 <= c < x.len() implies x[c] == start@[c] by {
            assert(all_placed(x)[c] == Some(x[c]));
            assert(all_placed(start@)[c] == Some(start@[c]));
        }
        assert(x =~= start@);
    }
}

/// The units matter by their cells alone.
proof fn lemma_same_units_stretch(
    graph: UnifiedGraph<'_>,
    weights: PlacementWeights<'_>,
    units: Seq<PlacementUnit>,
    others: Seq<PlacementUnit>,
    placed: Seq<Option<BelId>>,
)
    requires
        crate::refine_unique::same_units(units, others),
    ensures
        whole_stretch(graph, weights, units, placed) == whole_stretch(
            graph,
            weights,
            others,
            placed,
        ),
{
    assert forall|a: CellId, b: CellId|
        in_one_unit(units, a, b) == #[trigger] in_one_unit(others, a, b) by {
        if in_one_unit(units, a, b) {
            let u = choose|u: int|
                0 <= u < units.len() && (#[trigger] units[u]).cells@.contains(a)
                    && units[u].cells@.contains(b);
            assert(others[u].cells@.contains(a));
        }
        if in_one_unit(others, a, b) {
            let u = choose|u: int|
                0 <= u < others.len() && (#[trigger] others[u]).cells@.contains(a)
                    && others[u].cells@.contains(b);
            assert(units[u].cells@.contains(a));
        }
    }
    lemma_same_total(
        graph.design,
        graph.device,
        weights,
        units,
        others,
        placed,
        graph.design.nets@.len() as int,
        0,
    );
}

/// The units matter by their cells alone, as far as it is counted.
proof fn lemma_same_total(
    design: &Design,
    device: &Device,
    weights: PlacementWeights<'_>,
    units: Seq<PlacementUnit>,
    others: Seq<PlacementUnit>,
    placed: Seq<Option<BelId>>,
    net: int,
    sink: int,
)
    requires
        forall|a: CellId, b: CellId|
            in_one_unit(units, a, b) == #[trigger] in_one_unit(others, a, b),
    ensures
        total_stretch(design, device, weights, units, placed, net, sink) == total_stretch(
            design,
            device,
            weights,
            others,
            placed,
            net,
            sink,
        ),
    decreases net, sink,
{
    if sink > 0 {
        lemma_same_total(design, device, weights, units, others, placed, net, sink - 1);
    } else if net > 0 {
        lemma_same_total(
            design,
            device,
            weights,
            units,
            others,
            placed,
            net - 1,
            design.nets@[net - 1].sinks@.len() as int,
        );
    }
}

/// Every connection between different cells spans at most the tiles that the caller's
/// table of free distances gives it.
pub open spec fn all_within_budgets(
    graph: UnifiedGraph<'_>,
    weights: PlacementWeights<'_>,
    bindings: Seq<BelId>,
) -> bool {
    let design = graph.design;
    let bels = graph.device.bels@;
    forall|net: int, sink: int|
        #![trigger design.nets@[net].sinks@[sink]]
        0 <= net < design.nets@.len() && 0 <= sink < design.nets@[net].sinks@.len() ==> {
            let pin = design.nets@[net].sinks@[sink];
            let driver = design.pins@[design.nets@[net].driver.0 as int].cell;
            let driven = design.pins@[pin.0 as int].cell;
            driver != driven ==> tiles_between(
                bels[bindings[driver.0 as int].0 as int].point,
                bels[bindings[driven.0 as int].0 as int].point,
            ) <= free_distance(weights, Connection { net: NetId(net as usize), sink: pin })
        }
}

/// Nothing costs anything within the free distances.
proof fn lemma_free_total(
    graph: UnifiedGraph<'_>,
    weights: PlacementWeights<'_>,
    units: Seq<PlacementUnit>,
    bindings: Seq<BelId>,
    net: int,
    sink: int,
)
    requires
        graph.design.wf(),
        all_within_budgets(graph, weights, bindings),
        bindings.len() == graph.design.cells@.len(),
        0 <= net <= graph.design.nets@.len(),
        sink == 0 || (net < graph.design.nets@.len() && 0 <= sink
            <= graph.design.nets@[net].sinks@.len()),
    ensures
        total_stretch(
            graph.design,
            graph.device,
            weights,
            units,
            all_placed(bindings),
            net,
            sink,
        ) == 0,
    decreases net, sink,
{
    let design = graph.design;
    if sink > 0 {
        lemma_free_total(graph, weights, units, bindings, net, sink - 1);
        let record = design.nets@[net];
        let pin = record.sinks@[sink - 1];
        let driver = design.pins@[record.driver.0 as int].cell;
        let driven = design.pins@[pin.0 as int].cell;
        let placed = all_placed(bindings);
        assert(driver.0 < design.cells@.len());
        assert(driven.0 < design.cells@.len());
        assert(placed[driver.0 as int] == Some(bindings[driver.0 as int]));
        assert(placed[driven.0 as int] == Some(bindings[driven.0 as int]));
        let connection = Connection { net: NetId(net as usize), sink: pin };
        let share = choose|share: int| is_share(share, record.sinks@.len());
        let weight = at_most_max(share * asked_weight(weights, connection));
        assert(0int * 0 == 0);
        assert(weight * 0 == 0);
    } else if net > 0 {
        lemma_free_total(
            graph,
            weights,
            units,
            bindings,
            net - 1,
            design.nets@[net - 1].sinks@.len() as int,
        );
    }
}

/// What connections cost together is not negative.
pub(crate) proof fn lemma_total_range(
    graph: UnifiedGraph<'_>,
    weights: PlacementWeights<'_>,
    units: Seq<PlacementUnit>,
    placed: Seq<Option<BelId>>,
    net: int,
    sink: int,
)
    requires
        graph.design.nets@.len() <= usize::MAX,
        0 <= net <= graph.design.nets@.len(),
        sink == 0 || (net < graph.design.nets@.len() && 0 <= sink
            <= graph.design.nets@[net].sinks@.len()),
    ensures
        total_stretch(graph.design, graph.device, weights, units, placed, net, sink) >= 0,
    decreases net, sink,
{
    if sink > 0 {
        lemma_total_range(graph, weights, units, placed, net, sink - 1);
        lemma_stretch(graph.design, graph.device, weights, placed, net, sink - 1);
    } else if net > 0 {
        lemma_total_range(
            graph,
            weights,
            units,
            placed,
            net - 1,
            graph.design.nets@[net - 1].sinks@.len() as int,
        );
    }
}

/// A legal placement whose connections all keep within their free distances is
/// returned as it is.
pub proof fn a_placement_within_its_budgets_stays(
    refiner: PlacementRefiner<'_>,
    start: Placement,
    weights: PlacementWeights<'_>,
    limit: usize,
    placement: Placement,
    peak: usize,
)
    requires
        refiner.wf(),
        limited_outcome(refiner, start, weights, limit, Ok((placement, peak))),
        all_within_budgets(refiner.graph, weights, start.bindings@),
    ensures
        placement.bindings@ == start.bindings@,
{
    a_limited_refinement_keeps_or_lowers(refiner, start, weights, limit, placement, peak);
    let count = refiner.graph.design.nets@.len() as int;
    assert(refiner.graph.design.nets.len() == refiner.graph.design.nets@.len());
    lemma_free_total(refiner.graph, weights, refiner.units@, start.bindings@, count, 0);
    lemma_total_range(
        refiner.graph,
        weights,
        refiner.units@,
        all_placed(placement.bindings@),
        count,
        0,
    );
}

/// A limited refinement returns the placement that it was given, or one whose
/// connections between different units cost less together, by the caller's tables.
pub proof fn a_limited_refinement_keeps_or_lowers(
    refiner: PlacementRefiner<'_>,
    start: Placement,
    weights: PlacementWeights<'_>,
    limit: usize,
    placement: Placement,
    peak: usize,
)
    requires
        refiner.wf(),
        limited_outcome(refiner, start, weights, limit, Ok((placement, peak))),
    ensures
        placement.bindings@ == start.bindings@ || whole_stretch(
            refiner.graph,
            weights,
            refiner.units@,
            all_placed(placement.bindings@),
        ) < whole_stretch(
            refiner.graph,
            weights,
            refiner.units@,
            all_placed(start.bindings@),
        ),
{
    refinement_keeps_or_lowers(
        refiner.graph,
        refiner.constraints,
        &refiner.units,
        weights,
        Some(limit),
        &start.bindings,
        placement,
        peak as int,
    );
}

} // verus!
