//! What the bins of a grid hold together.

use vstd::prelude::*;

use crate::demand_bins::{
    bin_at, bin_edge, bin_start, bins_along, is_bin_grid, lemma_bin_begins, place_of,
};
use crate::demand_boxes::{rectangle_capacity, run_capacity};
use crate::model::Point;
use crate::routing_demand::{sum_of, RoutingCapacityMap, RoutingChannelOrientation};

verus! {

/// Capacity of the first bins together.
pub open spec fn bins_capacity(
    values: Seq<u32>,
    width: u32,
    bins: Seq<(Point, Point)>,
    count: int,
) -> int
    decreases count,
{
    if count <= 0 {
        0
    } else {
        bins_capacity(values, width, bins, count - 1) + rectangle_capacity(
            values,
            width,
            bins[count - 1].0,
            bins[count - 1].1,
        )
    }
}

/// Two runs that meet make one.
proof fn lemma_runs_join(values: Seq<u32>, width: u32, row: int, a: int, b: int, c: int)
    requires
        a <= b <= c,
    ensures
        run_capacity(values, width, row, a, b) + run_capacity(values, width, row, b, c)
            == run_capacity(values, width, row, a, c),
    decreases c - b,
{
    if b < c {
        lemma_runs_join(values, width, row, a, b, c - 1);
    }
}

/// Two rectangles side by side make one.
proof fn lemma_beside(values: Seq<u32>, width: u32, a: u32, b: u32, c: u32, top: u32, end: u32)
    requires
        a <= b <= c,
    ensures
        rectangle_capacity(values, width, Point { x: a, y: top }, Point { x: b, y: end })
            + rectangle_capacity(values, width, Point { x: b, y: top }, Point { x: c, y: end })
            == rectangle_capacity(values, width, Point { x: a, y: top }, Point { x: c, y: end }),
    decreases end,
{
    if end > top {
        lemma_beside(values, width, a, b, c, top, (end - 1) as u32);
        lemma_runs_join(values, width, end - 1, a as int, b as int, c as int);
    }
}

/// Two rectangles one above the other make one.
proof fn lemma_below(values: Seq<u32>, width: u32, a: u32, b: u32, top: u32, mid: u32, end: u32)
    requires
        top <= mid <= end,
    ensures
        rectangle_capacity(values, width, Point { x: a, y: top }, Point { x: b, y: mid })
            + rectangle_capacity(values, width, Point { x: a, y: mid }, Point { x: b, y: end })
            == rectangle_capacity(values, width, Point { x: a, y: top }, Point { x: b, y: end }),
    decreases end,
{
    if end > mid {
        lemma_below(values, width, a, b, top, mid, (end - 1) as u32);
    }
}

/// A run from the first column adds the values of the row so far.
proof fn lemma_run_sums(values: Seq<u32>, width: u32, row: int, count: int)
    requires
        0 <= row,
        0 <= count <= width,
        row * width + count <= values.len(),
        0 <= row * width,
    ensures
        sum_of(values.take(row * width)) + run_capacity(values, width, row, 0, count) == sum_of(
            values.take(row * width + count),
        ),
    decreases count,
{
    if count > 0 {
        lemma_run_sums(values, width, row, count - 1);
        let more = values.take(row * width + count);
        assert(more.drop_last() =~= values.take(row * width + count - 1));
        assert(more.last() == values[row * width + count - 1]);
    }
}

/// The first rows add their values.
proof fn lemma_rows_sum(values: Seq<u32>, width: u32, rows: u32)
    requires
        rows * width <= values.len(),
    ensures
        rectangle_capacity(
            values,
            width,
            Point { x: 0, y: 0 },
            Point { x: width, y: rows },
        ) == sum_of(values.take(rows * width)),
    decreases rows,
{
    if rows > 0 {
        let row = rows - 1;
        assert(row * width + width == rows * width) by (nonlinear_arith)
            requires
                row == rows - 1,
        ;
        assert(0 <= row * width) by (nonlinear_arith)
            requires
                row >= 0,
        ;
        lemma_rows_sum(values, width, (rows - 1) as u32);
        lemma_run_sums(values, width, row, width as int);
    } else {
        assert(0 * width == 0);
        assert(values.take(0).len() == 0);
    }
}

/// The first bins of the grid add up to the strips above and the strip so far.
proof fn lemma_strips(
    values: Seq<u32>,
    width: u32,
    height: u32,
    edge: int,
    bins: Seq<(Point, Point)>,
    row: int,
    column: int,
)
    requires
        edge > 0,
        is_bin_grid(width as int, height as int, edge, bins),
        0 <= row < bins_along(height as int, edge),
        0 <= column <= bins_along(width as int, edge),
        bins_capacity(values, width, bins, row * bins_along(width as int, edge))
            == rectangle_capacity(
            values,
            width,
            Point { x: 0, y: 0 },
            Point { x: width, y: bin_start(row, edge, height as int) as u32 },
        ),
    ensures
        bins_capacity(values, width, bins, row * bins_along(width as int, edge) + column)
            == rectangle_capacity(
            values,
            width,
            Point { x: 0, y: 0 },
            Point { x: width, y: bin_start(row, edge, height as int) as u32 },
        ) + rectangle_capacity(
            values,
            width,
            Point { x: 0, y: bin_start(row, edge, height as int) as u32 },
            Point {
                x: bin_start(column, edge, width as int) as u32,
                y: bin_start(row + 1, edge, height as int) as u32,
            },
        ),
    decreases column,
{
    let columns = bins_along(width as int, edge);
    let top = bin_start(row, edge, height as int) as u32;
    let end = bin_start(row + 1, edge, height as int) as u32;
    if column > 0 {
        lemma_strips(values, width, height, edge, bins, row, column - 1);
        lemma_bin_begins(width as int, edge, column - 1);
        lemma_bin_begins(width as int, edge, column);
        assert(0 <= row * columns) by (nonlinear_arith)
            requires
                0 <= row,
                0 <= columns,
        ;
        let at = place_of(columns, row, column - 1);
        assert(bins[at] == bin_at(width as int, height as int, edge, row, column - 1));
        lemma_beside(
            values,
            width,
            0,
            bin_start(column - 1, edge, width as int) as u32,
            bin_start(column, edge, width as int) as u32,
            top,
            end,
        );
    } else {
        assert(0 * edge == 0);
        assert(bin_start(0, edge, width as int) == 0);
        lemma_nothing_wide(values, width, 0, top, end);
    }
}

/// A rectangle without columns has no capacity.
proof fn lemma_nothing_wide(values: Seq<u32>, width: u32, x: u32, top: u32, end: u32)
    ensures
        rectangle_capacity(values, width, Point { x, y: top }, Point { x, y: end }) == 0,
    decreases end,
{
    if end > top {
        lemma_nothing_wide(values, width, x, top, (end - 1) as u32);
    }
}

/// The bins of the first rows add up to the strips that they fill.
proof fn lemma_rows_of_bins(
    values: Seq<u32>,
    width: u32,
    height: u32,
    edge: int,
    bins: Seq<(Point, Point)>,
    rows: int,
)
    requires
        edge > 0,
        is_bin_grid(width as int, height as int, edge, bins),
        0 <= rows <= bins_along(height as int, edge),
    ensures
        bins_capacity(values, width, bins, rows * bins_along(width as int, edge))
            == rectangle_capacity(
            values,
            width,
            Point { x: 0, y: 0 },
            Point { x: width, y: bin_start(rows, edge, height as int) as u32 },
        ),
    decreases rows,
{
    let columns = bins_along(width as int, edge);
    if rows > 0 {
        let row = rows - 1;
        lemma_rows_of_bins(values, width, height, edge, bins, row);
        lemma_bin_begins(width as int, edge, 0);
        lemma_bin_begins(height as int, edge, row);
        lemma_bin_begins(height as int, edge, rows);
        assert(columns >= 0) by {
            if columns < 0 {
                lemma_bin_begins(width as int, edge, 0);
                vstd::arithmetic::div_mod::lemma_div_pos_is_pos(width + edge - 1, edge);
            }
        }
        lemma_strips(values, width, height, edge, bins, row, columns);
        lemma_bin_begins(width as int, edge, columns);
        assert(bin_start(columns, edge, width as int) == width);
        assert(row * columns + columns == rows * columns) by (nonlinear_arith)
            requires
                row == rows - 1,
        ;
        lemma_below(
            values,
            width,
            0,
            width,
            0,
            bin_start(row, edge, height as int) as u32,
            bin_start(rows, edge, height as int) as u32,
        );
    } else {
        assert(0 * columns == 0);
        assert(0 * edge == 0);
    }
}

/// The capacities of the bins of a whole grid add up to the total capacity.
pub proof fn bins_hold_the_total_capacity(
    map: RoutingCapacityMap,
    orientation: RoutingChannelOrientation,
    bin_size: u32,
    bins: Seq<(Point, Point)>,
)
    requires
        map.wf(),
        is_bin_grid(map.width as int, map.height as int, bin_edge(bin_size), bins),
    ensures
        bins_capacity(map.values(orientation), map.width, bins, bins.len() as int) == sum_of(
            map.values(orientation),
        ),
{
    let values = map.values(orientation);
    let edge = bin_edge(bin_size);
    let rows = bins_along(map.height as int, edge);
    vstd::arithmetic::div_mod::lemma_div_pos_is_pos(map.height + edge - 1, edge);
    lemma_rows_of_bins(values, map.width, map.height, edge, bins, rows);
    lemma_bin_begins(map.height as int, edge, rows);
    assert(bin_start(rows, edge, map.height as int) == map.height);
    assert(map.height * map.width == map.width * map.height) by (nonlinear_arith);
    lemma_rows_sum(values, map.width, map.height);
    assert(values.take(values.len() as int) =~= values);
}

} // verus!
