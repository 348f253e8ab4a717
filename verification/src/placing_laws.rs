//! A unit is placed where it adds the least wire.

use vstd::prelude::*;

use crate::connection_cost::column_of;
use crate::cost::clip_u64;
use crate::device::{Device, UnifiedGraph};
use crate::greedy::{is_best_row, rank_before, row_available, row_rank};
use crate::model::{BelId, CellId, Connection, Design, NetId, Point};
use crate::neighbors::{
    are_neighbors, neighbors_of, neighbors_upto, PlacementNeighbor, PlacementWeights, StarEdge,
};
use crate::placement_constraints::PlacementConstraints;
use crate::placement_state::PlacementState;
use crate::pull_laws::{is_share, lemma_edge, lemma_share, may_pull};
use crate::refine_laws::{
    asked_weight, at_most_max, edge_of, in_one_unit, is_live, is_unit_at, lemma_one_share,
    tiles_between, toward,
};
use crate::row_cost::{bel_point, cell_pull, row_pull_upto};
use crate::target_laws::lemma_column;
use crate::units::PlacementUnit;
use crate::usage_model::{cells_in_range, lemma_with_row, with_row};

verus! {

/// What an edge pulls toward its placed end.
spec fn outer_pull(
    edge: PlacementNeighbor,
    point: Point,
    device: &Device,
    placed: Seq<Option<BelId>>,
) -> int {
    match placed[edge.cell.0 as int] {
        Some(bel) => clip_u64(edge.weight * point.distance(bel_point(device, bel))),
        None => 0,
    }
}

/// What a connection adds to the wire where its ends stand: its share of the fanout,
/// times its entry in the tables, times the tiles that it spans.
pub open spec fn linear_cost(
    design: &Design,
    device: &Device,
    weights: PlacementWeights<'_>,
    placed: Seq<Option<BelId>>,
    net: int,
    sink: int,
) -> int {
    let record = design.nets@[net];
    let pin = record.sinks@[sink];
    let connection = Connection { net: NetId(net as usize), sink: pin };
    let driver = design.pins@[record.driver.0 as int].cell;
    let driven = design.pins@[pin.0 as int].cell;
    let share = choose|share: int| is_share(share, record.sinks@.len());
    match (placed[driver.0 as int], placed[driven.0 as int]) {
        (Some(a), Some(b)) => if driver == driven || !may_pull(design, weights, net, sink) {
            0
        } else {
            let span = tiles_between(device.bels@[a.0 as int].point, device.bels@[b.0 as int].point);
            at_most_max(at_most_max(share * asked_weight(weights, connection)) * span)
        },
        _ => 0,
    }
}

/// What the connections between different units add up to, over the first nets
/// and the first sinks of the next.
pub open spec fn total_linear(
    design: &Design,
    device: &Device,
    weights: PlacementWeights<'_>,
    units: Seq<PlacementUnit>,
    placed: Seq<Option<BelId>>,
    net: int,
    sink: int,
) -> int
    decreases net, sink,
{
    if sink > 0 {
        let record = design.nets@[net];
        total_linear(design, device, weights, units, placed, net, sink - 1) + if in_one_unit(
            units,
            design.pins@[record.driver.0 as int].cell,
            design.pins@[record.sinks@[sink - 1].0 as int].cell,
        ) {
            0
        } else {
            linear_cost(design, device, weights, placed, net, sink - 1)
        }
    } else if net > 0 {
        total_linear(
            design,
            device,
            weights,
            units,
            placed,
            net - 1,
            design.nets@[net - 1].sinks@.len() as int,
        )
    } else {
        0
    }
}

/// What all connections between different units add up to.
pub open spec fn whole_linear(
    graph: UnifiedGraph<'_>,
    weights: PlacementWeights<'_>,
    units: Seq<PlacementUnit>,
    placed: Seq<Option<BelId>>,
) -> int {
    total_linear(
        graph.design,
        graph.device,
        weights,
        units,
        placed,
        graph.design.nets@.len() as int,
        0,
    )
}

/// What an edge adds where its ends stand.
spec fn edge_linear(edge: StarEdge, device: &Device, placed: Seq<Option<BelId>>) -> int {
    match (placed[edge.driver.0 as int], placed[edge.sink.0 as int]) {
        (Some(a), Some(b)) => if is_live(edge) {
            clip_u64(edge.weight * bel_point(device, a).distance(bel_point(device, b)))
        } else {
            0
        },
        _ => 0,
    }
}

/// A connection adds what its edge adds.
proof fn lemma_linear(
    design: &Design,
    device: &Device,
    weights: PlacementWeights<'_>,
    placed: Seq<Option<BelId>>,
    net: int,
    sink: int,
)
    requires
        0 <= net < design.nets@.len(),
        design.nets@.len() <= usize::MAX,
        0 <= sink < design.nets@[net].sinks@.len(),
    ensures
        linear_cost(design, device, weights, placed, net, sink) == edge_linear(
            edge_of(design, weights, net, sink),
            device,
            placed,
        ),
        linear_cost(design, device, weights, placed, net, sink) >= 0,
{
    lemma_edge(design, weights, net, sink);
    let record = design.nets@[net];
    let edge = edge_of(design, weights, net, sink);
    let known = crate::neighbors::fanout_weight(record.sinks@.len()) as int;
    lemma_share(record.sinks@.len());
    let share = choose|share: int| is_share(share, record.sinks@.len());
    lemma_one_share(share, known, record.sinks@.len());
    let connection = Connection { net: NetId(net as usize), sink: record.sinks@[sink] };
    let asked = asked_weight(weights, connection);
    assert(share * 1 == share);
    if let (Some(a), Some(b)) = (placed[edge.driver.0 as int], placed[edge.sink.0 as int]) {
        let span = tiles_between(device.bels@[a.0 as int].point, device.bels@[b.0 as int].point);
        assert(span == bel_point(device, a).distance(bel_point(device, b)));
        assert(0 <= share * asked) by (nonlinear_arith)
            requires
                0 <= share,
                0 <= asked,
        ;
        let weight = at_most_max(share * asked);
        assert(0 <= weight * span) by (nonlinear_arith)
            requires
                0 <= weight,
                0 <= span,
        ;
        if may_pull(design, weights, net, sink) {
            assert(edge.weight == weight);
            if edge.weight == 0 {
                assert(weight * span == 0) by (nonlinear_arith)
                    requires
                        weight == 0,
                ;
            }
        }
    }
}

/// What the row of a unit pays for an edge at one end of it.
spec fn end_pull(
    edge: StarEdge,
    end: CellId,
    other: CellId,
    cells: Seq<CellId>,
    row: Seq<BelId>,
    device: &Device,
    empty: Seq<Option<BelId>>,
    count: int,
) -> int {
    match column_of(cells, end) {
        Some(column) => if column < count && is_live(edge) {
            outer_pull(toward(edge, other), bel_point(device, row[column]), device, empty)
        } else {
            0
        },
        None => 0,
    }
}

/// What the row of a unit pays for an edge.
spec fn row_edge_pull(
    edge: StarEdge,
    cells: Seq<CellId>,
    row: Seq<BelId>,
    device: &Device,
    empty: Seq<Option<BelId>>,
    count: int,
) -> int {
    end_pull(edge, edge.driver, edge.sink, cells, row, device, empty, count) + end_pull(
        edge,
        edge.sink,
        edge.driver,
        cells,
        row,
        device,
        empty,
        count,
    )
}

/// Cost of the first cells of a unit by the edges so far.
spec fn partial_row_pull(
    design: &Design,
    weights: PlacementWeights<'_>,
    cells: Seq<CellId>,
    row: Seq<BelId>,
    device: &Device,
    empty: Seq<Option<BelId>>,
    count: int,
    net: int,
    sink: int,
) -> int
    decreases count,
{
    if count <= 0 {
        0
    } else {
        partial_row_pull(design, weights, cells, row, device, empty, count - 1, net, sink)
            + cell_pull(
            neighbors_upto(design, weights, cells[count - 1], net, sink),
            bel_point(device, row[count - 1]),
            device,
            empty,
        )
    }
}

/// One more edge adds what the row pays for it.
proof fn lemma_one_more_edge(
    design: &Design,
    weights: PlacementWeights<'_>,
    cells: Seq<CellId>,
    row: Seq<BelId>,
    device: &Device,
    empty: Seq<Option<BelId>>,
    count: int,
    net: int,
    sink: int,
)
    requires
        cells.no_duplicates(),
        0 <= count <= cells.len(),
        0 <= sink,
    ensures
        partial_row_pull(design, weights, cells, row, device, empty, count, net, sink + 1)
            == partial_row_pull(design, weights, cells, row, device, empty, count, net, sink)
            + row_edge_pull(
            edge_of(design, weights, net, sink),
            cells,
            row,
            device,
            empty,
            count,
        ),
    decreases count,
{
    let edge = edge_of(design, weights, net, sink);
    lemma_column(cells, edge.driver);
    lemma_column(cells, edge.sink);
    if count > 0 {
        lemma_one_more_edge(design, weights, cells, row, device, empty, count - 1, net, sink);
        let cell = cells[count - 1];
        let list = neighbors_upto(design, weights, cell, net, sink);
        let longer = neighbors_upto(design, weights, cell, net, sink + 1);
        assert(longer == crate::neighbors::with_edge(list, edge, cell));
        if is_live(edge) {
            if cell == edge.driver {
                assert(column_of(cells, edge.driver) == Some(count - 1));
                assert(longer =~= list.push(toward(edge, edge.sink)));
                assert(longer.drop_last() =~= list);
            } else if cell == edge.sink {
                assert(column_of(cells, edge.sink) == Some(count - 1));
                assert(longer =~= list.push(toward(edge, edge.driver)));
                assert(longer.drop_last() =~= list);
            }
        }
        if cell != edge.driver {
            assert(column_of(cells, edge.driver) != Some(count - 1));
        }
        if cell != edge.sink {
            assert(column_of(cells, edge.sink) != Some(count - 1));
        }
    }
}

/// Nothing is paid before the first edge.
proof fn lemma_no_edges(
    design: &Design,
    weights: PlacementWeights<'_>,
    cells: Seq<CellId>,
    row: Seq<BelId>,
    device: &Device,
    empty: Seq<Option<BelId>>,
    count: int,
)
    ensures
        partial_row_pull(design, weights, cells, row, device, empty, count, 0, 0) == 0,
    decreases count,
{
    if count > 0 {
        lemma_no_edges(design, weights, cells, row, device, empty, count - 1);
    }
}

/// The edges of a net are all edges before the next net.
proof fn lemma_next_net(
    design: &Design,
    weights: PlacementWeights<'_>,
    cells: Seq<CellId>,
    row: Seq<BelId>,
    device: &Device,
    empty: Seq<Option<BelId>>,
    count: int,
    net: int,
)
    requires
        0 < net,
    ensures
        partial_row_pull(design, weights, cells, row, device, empty, count, net, 0)
            == partial_row_pull(
            design,
            weights,
            cells,
            row,
            device,
            empty,
            count,
            net - 1,
            design.nets@[net - 1].sinks@.len() as int,
        ),
    decreases count,
{
    if count > 0 {
        lemma_next_net(design, weights, cells, row, device, empty, count - 1, net);
    }
}

/// The cost of a row is made of all edges.
proof fn lemma_whole_row_pull(
    design: &Design,
    weights: PlacementWeights<'_>,
    lists: Seq<Vec<PlacementNeighbor>>,
    cells: Seq<CellId>,
    row: Seq<BelId>,
    device: &Device,
    empty: Seq<Option<BelId>>,
    count: int,
)
    requires
        are_neighbors(design, weights, lists),
        cells_in_range(cells, lists.len() as int),
        0 <= count <= cells.len(),
    ensures
        row_pull_upto(count, cells, row, device, lists, empty) == partial_row_pull(
            design,
            weights,
            cells,
            row,
            device,
            empty,
            count,
            design.nets@.len() as int,
            0,
        ),
    decreases count,
{
    if count > 0 {
        lemma_whole_row_pull(design, weights, lists, cells, row, device, empty, count - 1);
        let cell = cells[count - 1];
        assert(CellId(cell.0 as int as usize) == cell);
        assert(lists[cell.0 as int]@ == neighbors_of(design, weights, cell));
    }
}

/// What one edge costs, less what the row pays for it, does not depend on the row.
proof fn lemma_edge_shift(
    graph: UnifiedGraph<'_>,
    constraints: &PlacementConstraints,
    units: Seq<PlacementUnit>,
    unit: int,
    edge: StarEdge,
    empty: Seq<Option<BelId>>,
    row: Seq<BelId>,
)
    requires
        is_unit_at(graph, constraints, units, unit),
        empty.len() == graph.design.cells@.len(),
        empty.len() <= usize::MAX,
        forall|k: int|
            0 <= k < units[unit].cells@.len() ==> empty[(
            #[trigger] units[unit].cells@[k]).0 as int] is None,
        row.len() == units[unit].cells@.len(),
        edge.driver.0 < empty.len(),
        edge.sink.0 < empty.len(),
    ensures
        ({
            let cells = units[unit].cells@;
            let placed = with_row(empty, cells, row);
            let paid = row_edge_pull(edge, cells, row, graph.device, empty, cells.len() as int);
            if in_one_unit(units, edge.driver, edge.sink) {
                cells.contains(edge.driver) ==> paid == 0
            } else if cells.contains(edge.driver) || cells.contains(edge.sink) {
                edge_linear(edge, graph.device, placed) == paid
            } else {
                paid == 0 && edge_linear(edge, graph.device, placed) == edge_linear(
                    edge,
                    graph.device,
                    empty,
                )
            }
        }),
        in_one_unit(units, edge.driver, edge.sink) ==> row_edge_pull(
            edge,
            units[unit].cells@,
            row,
            graph.device,
            empty,
            units[unit].cells@.len() as int,
        ) == 0,
{
    let cells = units[unit].cells@;
    assert(units[unit].wf(graph, constraints));
    lemma_with_row(empty, cells, row);
    lemma_column(cells, edge.driver);
    lemma_column(cells, edge.sink);
    assert(CellId(edge.driver.0 as int as usize) == edge.driver);
    assert(CellId(edge.sink.0 as int as usize) == edge.sink);
    let placed = with_row(empty, cells, row);
    if cells.contains(edge.driver) && cells.contains(edge.sink) {
        assert(units[unit].cells@.contains(edge.driver));
        assert(in_one_unit(units, edge.driver, edge.sink));
    }
    if in_one_unit(units, edge.driver, edge.sink) {
        let u = choose|u: int|
            0 <= u < units.len() && (#[trigger] units[u]).cells@.contains(edge.driver)
                && units[u].cells@.contains(edge.sink);
        let i = units[u].cells@.index_of(edge.driver);
        let j = units[u].cells@.index_of(edge.sink);
        if cells.contains(edge.driver) {
            let k = cells.index_of(edge.driver);
            assert(units[u].cells@[i] == units[unit].cells@[k]);
            assert(u == unit);
        }
        if cells.contains(edge.sink) {
            let k = cells.index_of(edge.sink);
            assert(units[u].cells@[j] == units[unit].cells@[k]);
            assert(u == unit);
        }
    } else {
        if let Some(column) = column_of(cells, edge.driver) {
            assert(placed[cells[column].0 as int] == Some(row[column]));
            assert(cells.contains(cells[column]));
            assert(!cells.contains(edge.sink));
            assert(placed[edge.sink.0 as int] == empty[edge.sink.0 as int]);
        } else {
            assert(placed[edge.driver.0 as int] == empty[edge.driver.0 as int]);
            if let Some(column) = column_of(cells, edge.sink) {
                assert(placed[cells[column].0 as int] == Some(row[column]));
                assert(cells.contains(cells[column]));
            } else {
                assert(placed[edge.sink.0 as int] == empty[edge.sink.0 as int]);
            }
        }
    }
}

/// The costs so far, less what the row of the unit pays, do not depend on the row.
proof fn lemma_total_shift(
    graph: UnifiedGraph<'_>,
    constraints: &PlacementConstraints,
    weights: PlacementWeights<'_>,
    units: Seq<PlacementUnit>,
    unit: int,
    empty: Seq<Option<BelId>>,
    row: Seq<BelId>,
    other: Seq<BelId>,
    net: int,
    sink: int,
)
    requires
        graph.design.wf(),
        graph.design.nets@.len() <= usize::MAX,
        is_unit_at(graph, constraints, units, unit),
        empty.len() == graph.design.cells@.len(),
        empty.len() <= usize::MAX,
        forall|k: int|
            0 <= k < units[unit].cells@.len() ==> empty[(
            #[trigger] units[unit].cells@[k]).0 as int] is None,
        row.len() == units[unit].cells@.len(),
        other.len() == units[unit].cells@.len(),
        0 <= net <= graph.design.nets@.len(),
        sink == 0 || (net < graph.design.nets@.len() && 0 <= sink
            <= graph.design.nets@[net].sinks@.len()),
    ensures
        ({
            let cells = units[unit].cells@;
            let count = cells.len() as int;
            let design = graph.design;
            let device = graph.device;
            total_linear(
                design,
                device,
                weights,
                units,
                with_row(empty, cells, row),
                net,
                sink,
            ) - partial_row_pull(design, weights, cells, row, device, empty, count, net, sink)
                == total_linear(
                design,
                device,
                weights,
                units,
                with_row(empty, cells, other),
                net,
                sink,
            ) - partial_row_pull(design, weights, cells, other, device, empty, count, net, sink)
        }),
    decreases net, sink,
{
    let cells = units[unit].cells@;
    let count = cells.len() as int;
    let design = graph.design;
    let device = graph.device;
    assert(units[unit].wf(graph, constraints));
    if sink > 0 {
        lemma_total_shift(
            graph,
            constraints,
            weights,
            units,
            unit,
            empty,
            row,
            other,
            net,
            sink - 1,
        );
        lemma_one_more_edge(design, weights, cells, row, device, empty, count, net, sink - 1);
        lemma_one_more_edge(design, weights, cells, other, device, empty, count, net, sink - 1);
        let edge = edge_of(design, weights, net, sink - 1);
        let record = design.nets@[net];
        assert(record.driver.0 < design.pins@.len());
        assert(record.sinks@[sink - 1].0 < design.pins@.len());
        assert(edge.driver == design.pins@[record.driver.0 as int].cell);
        assert(edge.sink == design.pins@[record.sinks@[sink - 1].0 as int].cell);
        lemma_edge_shift(graph, constraints, units, unit, edge, empty, row);
        lemma_edge_shift(graph, constraints, units, unit, edge, empty, other);
        lemma_linear(design, device, weights, with_row(empty, cells, row), net, sink - 1);
        lemma_linear(design, device, weights, with_row(empty, cells, other), net, sink - 1);
    } else if net > 0 {
        lemma_total_shift(
            graph,
            constraints,
            weights,
            units,
            unit,
            empty,
            row,
            other,
            net - 1,
            design.nets@[net - 1].sinks@.len() as int,
        );
        lemma_next_net(design, weights, cells, row, device, empty, count, net);
        lemma_next_net(design, weights, cells, other, device, empty, count, net);
    } else {
        lemma_no_edges(design, weights, cells, row, device, empty, count);
        lemma_no_edges(design, weights, cells, other, device, empty, count);
    }
}

/// A unit that is placed takes a row that adds the least wire: on no other free and
/// legal row of the unit would the connections between different units, weighed by the
/// caller's tables, add up to less.
pub proof fn a_placed_unit_adds_the_least_wire(
    graph: UnifiedGraph<'_>,
    constraints: &PlacementConstraints,
    weights: PlacementWeights<'_>,
    units: Seq<PlacementUnit>,
    lists: Seq<Vec<PlacementNeighbor>>,
    unit: int,
    before: &Vec<Option<BelId>>,
    state: PlacementState,
    choice: int,
    other: int,
)
    requires
        graph.wf(),
        crate::unit_list::are_units(graph, constraints, units),
        0 <= unit < units.len(),
        are_neighbors(graph.design, weights, lists),
        before@.len() == graph.design.cells@.len(),
        forall|k: int|
            0 <= k < units[unit].cells@.len() ==> before@[(
            #[trigger] units[unit].cells@[k]).0 as int] is None,
        state.placed@ == before@,
        is_best_row(graph, constraints, lists, state, units[unit], choice),
        row_available(graph, constraints, state, units[unit], other),
        row_pull_upto(
            units[unit].cells@.len() as int,
            units[unit].cells@,
            units[unit].choices.row(other),
            graph.device,
            lists,
            before@,
        ) < u64::MAX,
    ensures
        whole_linear(
            graph,
            weights,
            units,
            with_row(before@, units[unit].cells@, units[unit].choices.row(choice)),
        ) <= whole_linear(
            graph,
            weights,
            units,
            with_row(before@, units[unit].cells@, units[unit].choices.row(other)),
        ),
{
    let one = units[unit];
    let cells = one.cells@;
    let count = cells.len() as int;
    let row = one.choices.row(choice);
    let rival = one.choices.row(other);
    assert(one.wf(graph, constraints));
    assert(crate::units::row_fits(graph, constraints, cells, row));
    assert(crate::units::row_fits(graph, constraints, cells, rival));
    assert(before.len() == before@.len());
    assert(graph.design.nets.len() == graph.design.nets@.len());
    assert(cells_in_range(cells, lists.len() as int));
    assert(!rank_before(
        row_rank(graph.device, lists, before@, cells, rival),
        row_rank(graph.device, lists, before@, cells, row),
    ));
    lemma_whole_row_pull(graph.design, weights, lists, cells, row, graph.device, before@, count);
    lemma_whole_row_pull(graph.design, weights, lists, cells, rival, graph.device, before@, count);
    lemma_total_shift(
        graph,
        constraints,
        weights,
        units,
        unit,
        before@,
        row,
        rival,
        graph.design.nets@.len() as int,
        0,
    );
}

} // verus!
