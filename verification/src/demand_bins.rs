//! Rectangular bins over the device grid.

use vstd::arithmetic::div_mod::{lemma_fundamental_div_mod, lemma_fundamental_div_mod_converse};
use vstd::prelude::*;

use crate::model::Point;

verus! {

/// Edge length of the bins: at least one tile.
pub open spec fn bin_edge(bin_size: u32) -> int {
    if bin_size == 0 {
        1
    } else {
        bin_size as int
    }
}

/// Number of bins along an extent; the last may be cut off.
pub open spec fn bins_along(extent: int, edge: int) -> int {
    (extent + edge - 1) / edge
}

/// Where the bin begins, or where the extent ends.
pub open spec fn bin_start(index: int, edge: int, extent: int) -> int {
    if index * edge < extent {
        index * edge
    } else {
        extent
    }
}

/// Corners of the bin of a row and a column: the least tile, and the end behind
/// the greatest.
pub open spec fn bin_at(
    width: int,
    height: int,
    edge: int,
    row: int,
    column: int,
) -> (Point, Point) {
    (
        Point {
            x: bin_start(column, edge, width) as u32,
            y: bin_start(row, edge, height) as u32,
        },
        Point {
            x: bin_start(column + 1, edge, width) as u32,
            y: bin_start(row + 1, edge, height) as u32,
        },
    )
}

/// The tile is in the bin.
pub open spec fn bin_holds(bin: (Point, Point), x: int, y: int) -> bool {
    &&& bin.0.x <= x < bin.1.x
    &&& bin.0.y <= y < bin.1.y
}

/// What ends an extent ends its last bin.
proof fn lemma_bins_end(extent: int, edge: int, count: int)
    requires
        edge > 0,
        count >= 0,
        extent >= 0,
        count * edge >= extent,
        count > 0 ==> (count - 1) * edge < extent,
        count == 0 ==> extent == 0,
    ensures
        count == bins_along(extent, edge),
{
    let rest = extent + edge - 1 - count * edge;
    assert(rest >= 0 && rest < edge) by (nonlinear_arith)
        requires
            rest == extent + edge - 1 - count * edge,
            count >= 0,
            edge > 0,
            count * edge >= extent,
            count > 0 ==> (count - 1) * edge < extent,
            count == 0 ==> extent == 0,
    ;
    lemma_fundamental_div_mod_converse(extent + edge - 1, edge, count, rest);
}

/// Bins begin one after the other, and as many as there are begin in the extent.
pub(crate) proof fn lemma_bin_begins(extent: int, edge: int, index: int)
    requires
        edge > 0,
        0 <= index,
        0 <= extent,
    ensures
        index < bins_along(extent, edge) <==> index * edge < extent,
        (index + 1) * edge == index * edge + edge,
        index * edge >= 0,
{
    let count = bins_along(extent, edge);
    let all = extent + edge - 1;
    lemma_fundamental_div_mod(all, edge);
    assert((index + 1) * edge == index * edge + edge) by (nonlinear_arith);
    assert(index * edge >= 0) by (nonlinear_arith)
        requires
            index >= 0,
            edge > 0,
    ;
    if index < count {
        assert(index * edge < extent) by (nonlinear_arith)
            requires
                index < count,
                edge > 0,
                extent + edge - 1 == edge * count + all % edge,
                0 <= all % edge < edge,
        ;
    } else {
        assert(index * edge >= extent) by (nonlinear_arith)
            requires
                index >= count,
                edge > 0,
                extent + edge - 1 == edge * count + all % edge,
                0 <= all % edge < edge,
        ;
    }
}

/// The grid of bins, row by row.
pub open spec fn is_bin_grid(
    width: int,
    height: int,
    edge: int,
    bins: Seq<(Point, Point)>,
) -> bool {
    let columns = bins_along(width, edge);
    &&& bins.len() == bins_along(height, edge) * columns
    &&& forall|row: int, column: int|
        0 <= row < bins_along(height, edge) && 0 <= column < columns
            ==> #[trigger] bins[place_of(columns, row, column)] == bin_at(
            width,
            height,
            edge,
            row,
            column,
        )
}

/// Position of a bin in row-major order.
pub open spec fn place_of(columns: int, row: int, column: int) -> int {
    row * columns + column
}

/// A position of the first rows, or of the row that is being filled.
spec fn is_filled(columns: int, rows: int, count: int, row: int, column: int) -> bool {
    0 <= column < columns && (0 <= row < rows || row == rows && column < count)
}

/// Filled positions come first.
proof fn lemma_filled_place(columns: int, rows: int, count: int, row: int, column: int)
    requires
        is_filled(columns, rows, count, row, column),
        0 <= rows,
        0 <= count <= columns,
    ensures
        0 <= place_of(columns, row, column) < rows * columns + count,
{
    assert(0 <= row * columns + column < rows * columns + count) by (nonlinear_arith)
        requires
            0 <= column < columns,
            0 <= row < rows || row == rows && column < count,
            0 <= rows,
            0 <= count <= columns,
    ;
}

/// Bins of an edge length over a grid, in row-major order. A bin is given by its
/// least tile and the end behind its greatest; edge length zero counts as one.
pub fn bin_grid(width: u32, height: u32, bin_size: u32) -> (bins: Vec<(Point, Point)>)
    ensures
        is_bin_grid(width as int, height as int, bin_edge(bin_size), bins@),
{
    let edge: u32 = if bin_size == 0 {
        1
    } else {
        bin_size
    };
    let ghost columns = bins_along(width as int, edge as int);
    let mut bins: Vec<(Point, Point)> = Vec::new();
    let ghost mut row: int = 0;
    let mut y: u32 = 0;
    proof {
        assert(0 * edge == 0);
        assert(0 * columns == 0);
    }
    while y < height
        invariant
            0 < edge,
            columns == bins_along(width as int, edge as int),
            0 <= row,
            y == bin_start(row, edge as int, height as int),
            row > 0 ==> (row - 1) * edge < height,
            columns >= 0,
            bins@.len() == row * columns,
            forall|r: int, c: int|
                is_filled(columns, row, 0, r, c) ==> #[trigger] bins@[place_of(columns, r, c)]
                    == bin_at(width as int, height as int, edge as int, r, c),
        decreases height - y,
    {
        let bottom: u32 = if height - y <= edge {
            height
        } else {
            y + edge
        };
        let ghost mut column: int = 0;
        let mut x: u32 = 0;
        proof {
            lemma_bin_begins(height as int, edge as int, row);
            assert(0 * edge == 0);
        }
        while x < width
            invariant
                0 < edge,
                columns == bins_along(width as int, edge as int),
                0 <= row,
                y == bin_start(row, edge as int, height as int),
                y < height,
                bottom == bin_start(row + 1, edge as int, height as int),
                0 <= column <= columns,
                x == bin_start(column, edge as int, width as int),
                column > 0 ==> (column - 1) * edge < width,
                bins@.len() == row * columns + column,
                forall|r: int, c: int|
                    is_filled(columns, row, column, r, c) ==> #[trigger] bins@[place_of(
                        columns,
                        r,
                        c,
                    )] == bin_at(width as int, height as int, edge as int, r, c),
            decreases width - x,
        {
            let right: u32 = if width - x <= edge {
                width
            } else {
                x + edge
            };
            let ghost before = bins@;
            proof {
                lemma_bin_begins(width as int, edge as int, column);
            }
            bins.push((Point { x, y }, Point { x: right, y: bottom }));
            proof {
                assert forall|r: int, c: int|
                    is_filled(columns, row, column + 1, r, c) implies #[trigger] bins@[place_of(
                    columns,
                    r,
                    c,
                )] == bin_at(width as int, height as int, edge as int, r, c) by {
                    if is_filled(columns, row, column, r, c) {
                        lemma_filled_place(columns, row, column, r, c);
                        assert(before[place_of(columns, r, c)] == bin_at(
                            width as int,
                            height as int,
                            edge as int,
                            r,
                            c,
                        ));
                    } else {
                        assert(r == row && c == column);
                    }
                }
                column = column + 1;
            }
            x = right;
        }
        proof {
            lemma_bins_end(width as int, edge as int, column);
            assert((row + 1) * columns == row * columns + columns) by (nonlinear_arith);
            assert forall|r: int, c: int| is_filled(columns, row + 1, 0, r, c) implies
                is_filled(columns, row, columns, r, c) by {}
            row = row + 1;
        }
        y = bottom;
    }
    proof {
        lemma_bins_end(height as int, edge as int, row);
        assert forall|r: int, c: int|
            0 <= r < bins_along(height as int, edge as int) && 0 <= c < columns
                implies #[trigger] bins@[place_of(columns, r, c)] == bin_at(
            width as int,
            height as int,
            edge as int,
            r,
            c,
        ) by {
            assert(is_filled(columns, row, 0, r, c));
        }
    }
    bins
}

/// Every tile of the grid is in one bin, that of its own row and column of bins.
pub proof fn every_tile_is_in_one_bin(
    width: u32,
    height: u32,
    bin_size: u32,
    x: u32,
    y: u32,
    row: int,
    column: int,
)
    requires
        x < width,
        y < height,
        0 <= row < bins_along(height as int, bin_edge(bin_size)),
        0 <= column < bins_along(width as int, bin_edge(bin_size)),
    ensures
        bin_holds(
            bin_at(width as int, height as int, bin_edge(bin_size), row, column),
            x as int,
            y as int,
        ) <==> row == y as int / bin_edge(bin_size) && column == x as int / bin_edge(bin_size),
        0 <= y as int / bin_edge(bin_size) < bins_along(height as int, bin_edge(bin_size)),
        0 <= x as int / bin_edge(bin_size) < bins_along(width as int, bin_edge(bin_size)),
{
    lemma_tile_begins(width as int, bin_edge(bin_size), x as int, column);
    lemma_tile_begins(height as int, bin_edge(bin_size), y as int, row);
}

/// Along one extent, a tile is in the bin that its quotient names.
proof fn lemma_tile_begins(extent: int, edge: int, tile: int, index: int)
    requires
        edge > 0,
        0 <= tile < extent,
        0 <= index < bins_along(extent, edge),
    ensures
        bin_start(index, edge, extent) <= tile < bin_start(index + 1, edge, extent) <==> index
            == tile / edge,
        0 <= tile / edge < bins_along(extent, edge),
        0 <= bin_start(index, edge, extent) <= extent,
        0 <= bin_start(index + 1, edge, extent) <= extent,
{
    let quotient = tile / edge;
    lemma_fundamental_div_mod(tile, edge);
    assert(quotient >= 0) by (nonlinear_arith)
        requires
            tile == edge * quotient + tile % edge,
            0 <= tile % edge < edge,
            tile >= 0,
            edge > 0,
    ;
    lemma_bin_begins(extent, edge, index);
    lemma_bin_begins(extent, edge, index + 1);
    lemma_bin_begins(extent, edge, quotient);
    assert(edge * quotient == quotient * edge) by (nonlinear_arith);
    if index * edge <= tile && tile < (index + 1) * edge {
        lemma_fundamental_div_mod_converse(tile, edge, index, tile - index * edge);
    }
}

} // verus!
