//! Figures that describe how far legalization moved a placement.

use vstd::prelude::*;

use crate::model::Point;

verus! {

/// As much as an index can hold.
pub open spec fn clip_index(value: int) -> int {
    if value > usize::MAX {
        usize::MAX as int
    } else {
        value
    }
}

/// Position of the percentile by nearest rank, among so many sorted values.
pub open spec fn rank_position(count: int, percentile: int) -> int {
    let rank = clip_index(clip_index(count * percentile) + 99) / 100;
    if rank <= 0 {
        0
    } else if rank > count {
        count - 1
    } else {
        rank - 1
    }
}

/// Percentile of sorted values by nearest rank; zero of none.
pub fn nearest_rank(sorted: &[u64], percentile: usize) -> (result: u64)
    ensures
        result == if sorted@.len() == 0 {
            0
        } else {
            sorted@[rank_position(sorted@.len() as int, percentile as int)]
        },
{
    if sorted.len() == 0 {
        return 0;
    }
    let product: usize = match sorted.len().checked_mul(percentile) {
        Some(product) => product,
        None => usize::MAX,
    };
    let rank: usize = product.saturating_add(99) / 100;
    let place: usize = if rank == 0 {
        0
    } else if rank > sorted.len() {
        sorted.len() - 1
    } else {
        rank - 1
    };
    sorted[place]
}

/// At least the percentile of the values lies at or before the nearest rank,
/// and less than it lies before.
pub proof fn nearest_rank_covers_percentile(count: int, percentile: int)
    requires
        0 < count,
        0 < percentile <= 100,
        count * percentile + 99 <= usize::MAX,
    ensures
        0 <= rank_position(count, percentile) < count,
        100 * (rank_position(count, percentile) + 1) >= count * percentile,
        100 * rank_position(count, percentile) < count * percentile,
{
    assert(0 < count * percentile <= count * 100) by (nonlinear_arith)
        requires
            0 < count,
            0 < percentile <= 100,
    ;
}

/// The point lies in the window.
pub open spec fn in_window(point: Point, left: int, right: int, top: int, bottom: int) -> bool {
    left <= point.x < right && top <= point.y < bottom
}

/// Number of points in the window.
pub open spec fn window_count(
    points: Seq<Point>,
    left: int,
    right: int,
    top: int,
    bottom: int,
) -> int
    decreases points.len(),
{
    if points.len() == 0 {
        0
    } else {
        window_count(points.drop_last(), left, right, top, bottom) + if in_window(
            points.last(),
            left,
            right,
            top,
            bottom,
        ) {
            1int
        } else {
            0int
        }
    }
}

/// The lesser of two.
pub open spec fn lesser(a: int, b: int) -> int {
    if a <= b {
        a
    } else {
        b
    }
}

/// Number of points in the window that starts at the tile, as far as the grid goes.
pub open spec fn square_count(
    points: Seq<Point>,
    width: int,
    height: int,
    side: int,
    x: int,
    y: int,
) -> int {
    window_count(points, x, lesser(x + side, width), y, lesser(y + side, height))
}

/// There are no more points in a window than points.
proof fn lemma_window_bounded(points: Seq<Point>, left: int, right: int, top: int, bottom: int)
    ensures
        0 <= window_count(points, left, right, top, bottom) <= points.len(),
        right <= left || bottom <= top ==> window_count(points, left, right, top, bottom) == 0,
    decreases points.len(),
{
    if points.len() > 0 {
        lemma_window_bounded(points.drop_last(), left, right, top, bottom);
    }
}

/// A window splits into two, side by side or one above the other.
proof fn lemma_window_splits(
    points: Seq<Point>,
    left: int,
    middle: int,
    right: int,
    top: int,
    center: int,
    bottom: int,
)
    requires
        left <= middle <= right,
        top <= center <= bottom,
    ensures
        window_count(points, left, right, top, bottom) == window_count(
            points,
            left,
            middle,
            top,
            bottom,
        ) + window_count(points, middle, right, top, bottom),
        window_count(points, left, right, top, bottom) == window_count(
            points,
            left,
            right,
            top,
            center,
        ) + window_count(points, left, right, center, bottom),
    decreases points.len(),
{
    if points.len() > 0 {
        lemma_window_splits(points.drop_last(), left, middle, right, top, center, bottom);
    }
}

/// Places of a table row by row are distinct.
proof fn lemma_place(stride: int, rows: int, y: int, x: int)
    requires
        0 <= x < stride,
        0 <= y < rows,
    ensures
        0 <= y * stride + x < rows * stride,
        forall|v: int, u: int|
            #![trigger v * stride + u]
            0 <= u < stride && 0 <= v && v * stride + u == y * stride + x ==> v == y && u == x,
{
    assert(y * stride + x < rows * stride) by (nonlinear_arith)
        requires
            0 <= x < stride,
            0 <= y <= rows - 1,
    ;
    assert(0 <= y * stride) by (nonlinear_arith)
        requires
            0 <= y,
            0 <= stride,
    ;
    assert forall|v: int, u: int|
        #![trigger v * stride + u]
        0 <= u < stride && 0 <= v && v * stride + u == y * stride + x implies v == y && u == x by {
        assert(v == y) by (nonlinear_arith)
            requires
                0 <= u < stride,
                0 <= x < stride,
                v * stride + u == y * stride + x,
        ;
    }
}

/// The sides of a table that fits do so too.
proof fn lemma_sides_fit(width: u32, height: u32)
    requires
        (width + 1) * (height + 1) <= usize::MAX,
    ensures
        width + 1 <= usize::MAX,
        height + 1 <= usize::MAX,
        (height + 1) * (width + 1) == (width + 1) * (height + 1),
{
    assert((height + 1) * (width + 1) == (width + 1) * (height + 1)) by (nonlinear_arith);
    assert(width + 1 <= (width + 1) * (height + 1)) by (nonlinear_arith)
        requires
            height >= 0,
            width >= 0,
    ;
    assert(height + 1 <= (width + 1) * (height + 1)) by (nonlinear_arith)
        requires
            height >= 0,
            width >= 0,
    ;
}

/// The table holds, at each place, the number of points at one tile.
spec fn counts_tiles(table: Seq<usize>, points: Seq<Point>, width: int, height: int) -> bool {
    &&& table.len() == (height + 1) * (width + 1)
    &&& forall|y: int, x: int|
        #![trigger table[y * (width + 1) + x]]
        0 <= y <= height && 0 <= x <= width ==> table[y * (width + 1) + x] == if y == 0 || x == 0 {
            0
        } else {
            window_count(points, x - 1, x, y - 1, y)
        }
}

/// The first places hold the number of points above and to the left.
spec fn counts_corners(
    table: Seq<usize>,
    points: Seq<Point>,
    width: int,
    height: int,
    row: int,
    column: int,
) -> bool {
    &&& table.len() == (height + 1) * (width + 1)
    &&& forall|y: int, x: int|
        #![trigger table[y * (width + 1) + x]]
        0 <= y <= height && 0 <= x <= width ==> table[y * (width + 1) + x] == if y < row || (y
            == row && x < column) {
            window_count(points, 0, x, 0, y)
        } else if y == 0 || x == 0 {
            0
        } else {
            window_count(points, x - 1, x, y - 1, y)
        }
}

/// Counts the points at each tile.
fn count_tiles(points: &[Point], width: u32, height: u32) -> (result: Vec<usize>)
    requires
        (width + 1) * (height + 1) <= usize::MAX,
    ensures
        counts_tiles(result@, points@, width as int, height as int),
{
    proof {
        lemma_sides_fit(width, height);
    }
    let stride: usize = width as usize + 1;
    let size: usize = (height as usize + 1) * stride;
    let mut table: Vec<usize> = Vec::new();
    let mut filler: usize = 0;
    while filler < size
        invariant
            filler <= size,
            table@.len() == filler,
            forall|i: int| 0 <= i < filler ==> #[trigger] table@[i] == 0,
        decreases size - filler,
    {
        table.push(0);
        filler = filler + 1;
    }
    let mut index: usize = 0;
    proof {
        assert(points@.take(0) =~= Seq::<Point>::empty());
        assert forall|y: int, x: int|
            #![trigger table@[y * (width + 1) + x]]
            0 <= y <= height && 0 <= x <= width implies table@[y * (width + 1) + x] == if y == 0
            || x == 0 {
            0
        } else {
            window_count(points@.take(0), x - 1, x, y - 1, y)
        } by {
            lemma_place(width + 1, height + 1, y, x);
        }
    }
    while index < points.len()
        invariant
            index <= points@.len(),
            stride == width + 1,
            (height + 1) * (width + 1) <= usize::MAX,
            counts_tiles(
                table@,
                points@.take(index as int),
                width as int,
                height as int,
            ),
        decreases points@.len() - index,
    {
        let point = points[index];
        let ghost before = table@;
        let ghost done = points@.take(index as int);
        let ghost more = points@.take(index + 1);
        proof {
            assert(more.drop_last() =~= done);
            assert(more.last() == point);
        }
        if point.x < width && point.y < height {
            proof {
                lemma_place(width + 1, height + 1, point.y + 1, point.x + 1);
                lemma_window_bounded(
                    done,
                    point.x as int,
                    point.x + 1,
                    point.y as int,
                    point.y + 1,
                );
                assert(before[(point.y + 1) * (width + 1) + (point.x + 1)] == window_count(
                    done,
                    point.x as int,
                    point.x + 1,
                    point.y as int,
                    point.y + 1,
                ));
            }
            let place: usize = (point.y as usize + 1) * stride + (point.x as usize + 1);
            let known: usize = table[place];
            table.set(place, known + 1);
        }
        proof {
            assert forall|y: int, x: int|
                #![trigger table@[y * (width + 1) + x]]
                0 <= y <= height && 0 <= x <= width implies table@[y * (width + 1) + x] == if y
                == 0 || x == 0 {
                0
            } else {
                window_count(more, x - 1, x, y - 1, y)
            } by {
                lemma_place(width + 1, height + 1, y, x);
                assert(before[y * (width + 1) + x] == if y == 0 || x == 0 {
                    0
                } else {
                    window_count(done, x - 1, x, y - 1, y)
                });
                if point.x < width && point.y < height {
                    lemma_place(width + 1, height + 1, point.y + 1, point.x + 1);
                }
            }
        }
        index = index + 1;
    }
    assert(points@.take(index as int) =~= points@);
    table
}

/// Sums the counts up to those of all corners.
fn sum_corners(
    table: &mut Vec<usize>,
    width: u32,
    height: u32,
    Ghost(points): Ghost<Seq<Point>>,
)
    requires
        (width + 1) * (height + 1) <= usize::MAX,
        points.len() <= usize::MAX / 2,
        counts_tiles(old(table)@, points, width as int, height as int),
    ensures
        counts_corners(
            final(table)@,
            points,
            width as int,
            height as int,
            height + 1,
            0,
        ),
{
    proof {
        lemma_sides_fit(width, height);
    }
    let stride: usize = width as usize + 1;
    let mut y: usize = 1;
    proof {
        assert forall|v: int, u: int|
            #![trigger table@[v * (width + 1) + u]]
            0 <= v <= height && 0 <= u <= width implies table@[v * (width + 1) + u] == if v < 1 || (
        v == 1 && u < 1) {
            window_count(points, 0, u, 0, v)
        } else if v == 0 || u == 0 {
            0
        } else {
            window_count(points, u - 1, u, v - 1, v)
        } by {
            lemma_window_bounded(points, 0, u, 0, v);
        }
    }
    while y <= height as usize
        invariant
            1 <= y <= height + 1,
            height + 1 <= usize::MAX,
            stride == width + 1,
            (height + 1) * (width + 1) <= usize::MAX,
            points.len() <= usize::MAX / 2,
            counts_corners(table@, points, width as int, height as int, y as int, 1),
        decreases height + 1 - y,
    {
        let mut row: usize = 0;
        let mut x: usize = 1;
        proof {
            lemma_window_bounded(points, 0, 0, y - 1, y as int);
        }
        while x <= width as usize
            invariant
                1 <= x <= width + 1,
                1 <= y <= height,
                stride == width + 1,
                (height + 1) * (width + 1) <= usize::MAX,
                points.len() <= usize::MAX / 2,
                counts_corners(table@, points, width as int, height as int, y as int, x as int),
                row == window_count(points, 0, x - 1, y - 1, y as int),
            decreases width + 1 - x,
        {
            let ghost before = table@;
            proof {
                lemma_place(width + 1, height + 1, y as int, x as int);
                lemma_place(width + 1, height + 1, y - 1, x as int);
                assert(before[y * (width + 1) + x] == window_count(
                    points,
                    x - 1,
                    x as int,
                    y - 1,
                    y as int,
                ));
                assert(before[(y - 1) * (width + 1) + x] == window_count(
                    points,
                    0,
                    x as int,
                    0,
                    y - 1,
                ));
                lemma_window_splits(points, 0, x - 1, x as int, y - 1, y - 1, y as int);
                lemma_window_splits(points, 0, 0, x as int, 0, y - 1, y as int);
                lemma_window_bounded(points, 0, x as int, y - 1, y as int);
                lemma_window_bounded(points, 0, x as int, 0, y as int);
            }
            let place: usize = y * stride + x;
            let above: usize = (y - 1) * stride + x;
            row = row + table[place];
            let sum: usize = row + table[above];
            table.set(place, sum);
            proof {
                assert forall|v: int, u: int|
                    #![trigger table@[v * (width + 1) + u]]
                    0 <= v <= height && 0 <= u <= width implies table@[v * (width + 1) + u] == if v
                    < y || (v == y && u < x + 1) {
                    window_count(points, 0, u, 0, v)
                } else if v == 0 || u == 0 {
                    0
                } else {
                    window_count(points, u - 1, u, v - 1, v)
                } by {
                    lemma_place(width + 1, height + 1, v, u);
                    let known = before[v * (width + 1) + u];
                    if v == y && u == x {
                    } else {
                        assert(v * (width + 1) + u != place);
                    }
                }
            }
            x = x + 1;
        }
        proof {
            assert forall|v: int, u: int|
                #![trigger table@[v * (width + 1) + u]]
                0 <= v <= height && 0 <= u <= width implies table@[v * (width + 1) + u] == if v < y
                + 1 || (v == y + 1 && u < 1) {
                window_count(points, 0, u, 0, v)
            } else if v == 0 || u == 0 {
                0
            } else {
                window_count(points, u - 1, u, v - 1, v)
            } by {
                lemma_window_bounded(points, 0, u, 0, v);
            }
        }
        y = y + 1;
    }
    proof {
        assert forall|v: int, u: int|
            #![trigger table@[v * (width + 1) + u]]
            0 <= v <= height && 0 <= u <= width implies table@[v * (width + 1) + u] == if v < height
            + 1 || (v == height + 1 && u < 0) {
            window_count(points, 0, u, 0, v)
        } else if v == 0 || u == 0 {
            0
        } else {
            window_count(points, u - 1, u, v - 1, v)
        } by {}
    }
}

/// The count of a window from those of four corners.
proof fn lemma_corners(
    points: Seq<Point>,
    left: int,
    right: int,
    top: int,
    bottom: int,
)
    requires
        0 <= left <= right,
        0 <= top <= bottom,
    ensures
        window_count(points, left, right, top, bottom) == window_count(
            points,
            0,
            right,
            0,
            bottom,
        ) + window_count(points, 0, left, 0, top) - window_count(points, 0, right, 0, top)
            - window_count(points, 0, left, 0, bottom),
{
    lemma_window_splits(points, 0, left, right, 0, top, bottom);
    lemma_window_splits(points, 0, left, right, 0, 0, top);
    lemma_window_splits(points, left, left, right, 0, top, bottom);
}

/// Greatest number of points in a square window of the grid.
///
/// A window that starts near the right or the lower edge is cut off there.
pub fn maximum_window_occupancy(points: &[Point], width: u32, height: u32, side: u32) -> (result:
    usize)
    requires
        (width + 1) * (height + 1) <= usize::MAX,
        points@.len() <= usize::MAX / 2,
    ensures
        width == 0 || height == 0 ==> result == 0,
        forall|x: int, y: int|
            0 <= x < width && 0 <= y < height ==> #[trigger] square_count(
                points@,
                width as int,
                height as int,
                side as int,
                x,
                y,
            ) <= result,
        width > 0 && height > 0 ==> exists|x: int, y: int|
            0 <= x < width && 0 <= y < height && #[trigger] square_count(
                points@,
                width as int,
                height as int,
                side as int,
                x,
                y,
            ) == result,
{
    let mut prefix = count_tiles(points, width, height);
    sum_corners(&mut prefix, width, height, Ghost(points@));
    proof {
        lemma_sides_fit(width, height);
        if width > 0 && height > 0 {
            lemma_window_bounded(
                points@,
                0,
                lesser(side as int, width as int),
                0,
                lesser(side as int, height as int),
            );
        }
    }
    let columns: usize = width as usize;
    let rows: usize = height as usize;
    let span: usize = side as usize;
    let stride: usize = columns + 1;
    let mut maximum: usize = 0;
    let ghost mut found = false;
    let mut y0: usize = 0;
    while y0 < rows
        invariant
            y0 <= rows,
            columns == width,
            rows == height,
            span == side,
            stride == width + 1,
            (height + 1) * (width + 1) <= usize::MAX,
            points@.len() <= usize::MAX / 2,
            counts_corners(
                prefix@,
                points@,
                width as int,
                height as int,
                height + 1,
                0,
            ),
            forall|x: int, y: int|
                0 <= x < width && 0 <= y < y0 ==> #[trigger] square_count(
                    points@,
                    width as int,
                    height as int,
                    side as int,
                    x,
                    y,
                ) <= maximum,
            !found ==> maximum == 0 && (y0 == 0 || width == 0),
            found ==> exists|x: int, y: int|
                0 <= x < width && 0 <= y < height && #[trigger] square_count(
                    points@,
                    width as int,
                    height as int,
                    side as int,
                    x,
                    y,
                ) == maximum,
        decreases rows - y0,
    {
        let y1: usize = if span < rows - y0 {
            y0 + span
        } else {
            rows
        };
        let mut x0: usize = 0;
        while x0 < columns
            invariant
                x0 <= columns,
                y0 < rows,
                y1 == lesser(y0 + side, height as int),
                columns == width,
                rows == height,
                span == side,
                stride == width + 1,
                (height + 1) * (width + 1) <= usize::MAX,
                points@.len() <= usize::MAX / 2,
                counts_corners(
                    prefix@,
                    points@,
                    width as int,
                    height as int,
                    height + 1,
                    0,
                ),
                forall|x: int, y: int|
                    0 <= x < width && 0 <= y < height && (y < y0 || (y == y0 && x < x0))
                        ==> #[trigger] square_count(
                        points@,
                        width as int,
                        height as int,
                        side as int,
                        x,
                        y,
                    ) <= maximum,
                !found ==> maximum == 0 && (y0 == 0 || width == 0) && x0 == 0,
                found ==> exists|x: int, y: int|
                    0 <= x < width && 0 <= y < height && #[trigger] square_count(
                        points@,
                        width as int,
                        height as int,
                        side as int,
                        x,
                        y,
                    ) == maximum,
            decreases columns - x0,
        {
            let x1: usize = if span < columns - x0 {
                x0 + span
            } else {
                columns
            };
            proof {
                lemma_place(width + 1, height + 1, y1 as int, x1 as int);
                lemma_place(width + 1, height + 1, y0 as int, x0 as int);
                lemma_place(width + 1, height + 1, y0 as int, x1 as int);
                lemma_place(width + 1, height + 1, y1 as int, x0 as int);
                assert(prefix@[y1 * (width + 1) + x1] == window_count(
                    points@,
                    0,
                    x1 as int,
                    0,
                    y1 as int,
                ));
                assert(prefix@[y0 * (width + 1) + x0] == window_count(
                    points@,
                    0,
                    x0 as int,
                    0,
                    y0 as int,
                ));
                assert(prefix@[y0 * (width + 1) + x1] == window_count(
                    points@,
                    0,
                    x1 as int,
                    0,
                    y0 as int,
                ));
                assert(prefix@[y1 * (width + 1) + x0] == window_count(
                    points@,
                    0,
                    x0 as int,
                    0,
                    y1 as int,
                ));
                lemma_corners(points@, x0 as int, x1 as int, y0 as int, y1 as int);
                lemma_window_bounded(points@, x0 as int, x1 as int, y0 as int, y1 as int);
                lemma_window_bounded(points@, 0, x1 as int, 0, y1 as int);
                lemma_window_bounded(points@, 0, x0 as int, 0, y0 as int);
                lemma_window_bounded(points@, 0, x1 as int, 0, y0 as int);
                lemma_window_bounded(points@, 0, x0 as int, 0, y1 as int);
            }
            let count: usize = prefix[y1 * stride + x1] + prefix[y0 * stride + x0] - prefix[y0
                * stride + x1] - prefix[y1 * stride + x0];
            assert(count == square_count(
                points@,
                width as int,
                height as int,
                side as int,
                x0 as int,
                y0 as int,
            ));
            if count > maximum {
                maximum = count;
                proof {
                    found = true;
                }
            } else {
                proof {
                    if !found {
                        found = true;
                        assert(square_count(
                            points@,
                            width as int,
                            height as int,
                            side as int,
                            x0 as int,
                            y0 as int,
                        ) == maximum);
                    }
                }
            }
            x0 = x0 + 1;
        }
        y0 = y0 + 1;
    }
    maximum
}

} // verus!
