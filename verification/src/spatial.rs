//! Choices of a unit by the tile of their first BEL.

use vstd::prelude::*;

use crate::device::Device;
use crate::model::{gap, Point};
use crate::ordered::OrderedSet;
use crate::units::PlacementChoices;

verus! {

/// Coordinates exactly `offset` away from `center`, clipped to `extent`.
///
/// The zero offset yields only the center so ring enumeration never visits a
/// coordinate twice.
pub fn ring_coordinates(center: u32, offset: u32, extent: u32) -> (result: Vec<u32>)
    ensures
        result@.no_duplicates(),
        forall|v: u32| #[trigger]
            result@.contains(v) <==> v < extent && gap(v as int, center as int) == offset,
        forall|i: int, j: int|
            0 <= i < j < result@.len() ==> #[trigger] result@[i] < #[trigger] result@[j],
{
    let mut result: Vec<u32> = Vec::new();
    let ghost minus = center - offset;
    let ghost plus = center + offset;
    if offset <= center && center - offset < extent {
        result.push(center - offset);
    }
    let ghost lower = result@;
    if offset != 0 && offset <= u32::MAX - center && center + offset < extent {
        result.push(center + offset);
    }
    proof {
        assert forall|v: u32| #[trigger] result@.contains(v) <==> v < extent && gap(
            v as int,
            center as int,
        ) == offset by {
            if v < extent && gap(v as int, center as int) == offset {
                if v <= center {
                    assert(lower.len() == 1 && lower[0] == v);
                    assert(result@[0] == v);
                } else {
                    assert(result@[result@.len() - 1] == v);
                }
            }
        }
    }
    result
}

/// Tiles of the device at exactly the given distance of a tile.
pub fn ring_points(center: Point, radius: u32, device: &Device) -> (result: Vec<Point>)
    ensures
        forall|p: Point| #[trigger]
            result@.contains(p) <==> device.holds(p) && p.distance(center) == radius,
{
    let mut result: Vec<Point> = Vec::new();
    let mut next: u64 = 0;
    while next <= radius as u64
        invariant
            next <= radius + 1,
            forall|p: Point| #[trigger]
                result@.contains(p) <==> device.holds(p) && p.distance(center) == radius && gap(
                    p.y as int,
                    center.y as int,
                ) < next,
        decreases radius + 1 - next,
    {
        let dy: u32 = next as u32;
        let dx: u32 = radius - dy;
        let rows = ring_coordinates(center.y, dy, device.height);
        let columns = ring_coordinates(center.x, dx, device.width);
        let ghost before = result@;
        let mut row: usize = 0;
        while row < rows.len()
            invariant
                row <= rows@.len(),
                dx == radius - dy,
                dy <= radius,
                forall|v: u32| #[trigger]
                    rows@.contains(v) <==> v < device.height && gap(v as int, center.y as int)
                        == dy,
                forall|v: u32| #[trigger]
                    columns@.contains(v) <==> v < device.width && gap(v as int, center.x as int)
                        == dx,
                forall|p: Point| #[trigger]
                    result@.contains(p) <==> before.contains(p) || (rows@.take(
                        row as int,
                    ).contains(p.y) && columns@.contains(p.x)),
            decreases rows@.len() - row,
        {
            let y: u32 = rows[row];
            let ghost middle = result@;
            let mut column: usize = 0;
            while column < columns.len()
                invariant
                    column <= columns@.len(),
                    forall|p: Point| #[trigger]
                        result@.contains(p) <==> middle.contains(p) || (p.y == y && columns@.take(
                            column as int,
                        ).contains(p.x)),
                decreases columns@.len() - column,
            {
                let point = Point { x: columns[column], y };
                let ghost earlier = result@;
                result.push(point);
                proof {
                    let shorter = columns@.take(column as int);
                    let longer = columns@.take(column + 1);
                    assert(longer =~= shorter.push(point.x));
                    assert forall|p: Point| #[trigger] result@.contains(p) <==> middle.contains(p)
                        || (p.y == y && longer.contains(p.x)) by {
                        assert(result@[earlier.len() as int] == point);
                        assert(longer[column as int] == point.x);
                        if earlier.contains(p) {
                            let k = earlier.index_of(p);
                            assert(result@[k] == p);
                        }
                        if result@.contains(p) && p != point {
                            let k = result@.index_of(p);
                            assert(earlier[k] == p);
                        }
                        if shorter.contains(p.x) {
                            let k = shorter.index_of(p.x);
                            assert(longer[k] == p.x);
                        }
                        if longer.contains(p.x) && p.x != point.x {
                            let k = longer.index_of(p.x);
                            assert(shorter[k] == p.x);
                        }
                        if p.y == y && p.x == point.x {
                            assert(p == point);
                        }
                    }
                }
                column = column + 1;
            }
            proof {
                assert(columns@.take(column as int) =~= columns@);
                let shorter = rows@.take(row as int);
                let longer = rows@.take(row + 1);
                assert(longer =~= shorter.push(y));
                assert forall|p: Point| #[trigger] result@.contains(p) <==> before.contains(p) || (
                longer.contains(p.y) && columns@.contains(p.x)) by {
                    assert(longer[row as int] == y);
                    if shorter.contains(p.y) {
                        let k = shorter.index_of(p.y);
                        assert(longer[k] == p.y);
                    }
                    if longer.contains(p.y) && p.y != y {
                        let k = longer.index_of(p.y);
                        assert(shorter[k] == p.y);
                    }
                }
            }
            row = row + 1;
        }
        proof {
            assert(rows@.take(row as int) =~= rows@);
            assert forall|p: Point| #[trigger] result@.contains(p) <==> device.holds(p)
                && p.distance(center) == radius && gap(p.y as int, center.y as int) < dy + 1 by {
                assert(before.contains(p) <==> device.holds(p) && p.distance(center) == radius
                    && gap(p.y as int, center.y as int) < dy);
                assert(rows@.contains(p.y) <==> p.y < device.height && gap(
                    p.y as int,
                    center.y as int,
                ) == dy);
                assert(columns@.contains(p.x) <==> p.x < device.width && gap(
                    p.x as int,
                    center.x as int,
                ) == dx);
            }
        }
        next = next + 1;
    }
    result
}

/// The choice begins on the tile.
pub open spec fn begins_at(
    choices: PlacementChoices,
    device: &Device,
    index: int,
    point: Point,
) -> bool {
    &&& 0 <= index < choices.count()
    &&& choices.row(index).len() > 0
    &&& device.bels@[choices.row(index)[0].0 as int].point == point
}

/// Tile of the first BEL of a choice.
pub open spec fn choice_point(choices: PlacementChoices, device: &Device, index: int) -> Point {
    device.bels@[choices.row(index)[0].0 as int].point
}

/// Every choice begins with a BEL of the device.
pub open spec fn choices_on_device(choices: PlacementChoices, device: &Device) -> bool {
    forall|i: int|
        0 <= i < choices.count() ==> (#[trigger] choices.row(i)).len() > 0 && choices.row(i)[0].0
            < device.bels@.len()
}

/// Choices by the tile of their first BEL.
#[derive(Clone, Debug)]
pub struct SpatialChoiceIndex {
    /// Choices of each tile, row by row.
    pub by_point: Vec<Vec<usize>>,
}

/// Number of a tile, row by row.
pub open spec fn tile(device: &Device, point: Point) -> int {
    point.y * device.width + point.x
}

/// Tiles of the device have numbers of their own below its area.
pub proof fn lemma_tile(device: &Device, point: Point)
    requires
        device.holds(point),
    ensures
        0 <= tile(device, point) < device.width * device.height,
        forall|other: Point|
            device.holds(other) && #[trigger] tile(device, other) == tile(device, point)
                ==> other == point,
{
    assert(point.y * device.width + point.x < device.width * device.height) by (nonlinear_arith)
        requires
            point.x < device.width,
            point.y < device.height,
    ;
    assert(point.y * device.width >= 0) by (nonlinear_arith);
    assert forall|other: Point|
        device.holds(other) && #[trigger] tile(device, other) == tile(device, point) implies other
        == point by {
        let w = device.width as int;
        if other.y < point.y {
            assert(point.y * w >= other.y * w + w) by (nonlinear_arith)
                requires
                    other.y < point.y,
                    w >= 0,
            ;
        } else if other.y > point.y {
            assert(other.y * w >= point.y * w + w) by (nonlinear_arith)
                requires
                    other.y > point.y,
                    w >= 0,
            ;
        }
    }
}

impl SpatialChoiceIndex {
    /// The index lists exactly the choices of every tile.
    pub open spec fn indexes(&self, choices: PlacementChoices, device: &Device) -> bool {
        &&& self.by_point@.len() == device.width * device.height
        &&& forall|p: Point, i: usize|
            device.holds(p) ==> (#[trigger] self.by_point@[tile(device, p)]@.contains(i)
                <==> begins_at(choices, device, i as int, p))
    }

    /// Indexes the choices.
    pub fn new(choices: &PlacementChoices, device: &Device) -> (result: Self)
        requires
            device.wf(),
            choices_on_device(*choices, device),
        ensures
            result.indexes(*choices, device),
    {
        let area: usize = (device.width as usize) * (device.height as usize);
        let mut by_point: Vec<Vec<usize>> = Vec::new();
        let mut filler: usize = 0;
        while filler < area
            invariant
                filler <= area,
                by_point@.len() == filler,
                forall|t: int| 0 <= t < filler ==> (#[trigger] by_point@[t])@.len() == 0,
            decreases area - filler,
        {
            by_point.push(Vec::new());
            filler = filler + 1;
        }
        let mut index: usize = 0;
        proof {
            assert forall|p: Point, i: usize| device.holds(p) implies (
            #[trigger] by_point@[tile(device, p)]@.contains(i) <==> i < 0 && begins_at(
                *choices,
                device,
                i as int,
                p,
            )) by {
                lemma_tile(device, p);
                assert(by_point@[tile(device, p)]@.len() == 0);
            }
        }
        while index < choices.len()
            invariant
                index <= choices.count(),
                device.wf(),
                choices_on_device(*choices, device),
                by_point@.len() == device.width * device.height,
                forall|p: Point, i: usize|
                    device.holds(p) ==> (#[trigger] by_point@[tile(device, p)]@.contains(i)
                        <==> i < index && begins_at(*choices, device, i as int, p)),
            decreases choices.count() - index,
        {
            let row = choices.assignment(index);
            assert(choices.row(index as int).len() > 0);
            let point = device.bels[row[0].0].point;
            proof {
                lemma_tile(device, point);
                assert(point.y * device.width <= u32::MAX) by (nonlinear_arith)
                    requires
                        point.y < device.height,
                        device.width * device.height <= u32::MAX,
                        device.width > 0,
                ;
            }
            let at: usize = (point.y as usize) * (device.width as usize) + (point.x as usize);
            let ghost before = by_point@;
            by_point[at].push(index);
            proof {
                assert(begins_at(*choices, device, index as int, point));
                assert forall|p: Point, i: usize| device.holds(p) implies (
                #[trigger] by_point@[tile(device, p)]@.contains(i) <==> i < index + 1 && begins_at(
                    *choices,
                    device,
                    i as int,
                    p,
                )) by {
                    lemma_tile(device, p);
                    let t = tile(device, p);
                    assert(before[t]@.contains(i) <==> i < index && begins_at(
                        *choices,
                        device,
                        i as int,
                        p,
                    ));
                    if t == at {
                        assert(p == point);
                        assert(by_point@[t]@ =~= before[t]@.push(index));
                        assert(by_point@[t]@[before[t]@.len() as int] == index);
                        if before[t]@.contains(i) {
                            let k = before[t]@.index_of(i);
                            assert(by_point@[t]@[k] == i);
                        }
                        if by_point@[t]@.contains(i) && i != index {
                            let k = by_point@[t]@.index_of(i);
                            assert(before[t]@[k] == i);
                        }
                    } else {
                        assert(by_point@[t] == before[t]);
                        if i == index {
                            assert(choice_point(*choices, device, index as int) == point);
                        }
                    }
                }
            }
            index = index + 1;
        }
        proof {
            assert forall|p: Point, i: usize| device.holds(p) implies (
            #[trigger] by_point@[tile(device, p)]@.contains(i) <==> begins_at(
                *choices,
                device,
                i as int,
                p,
            )) by {}
        }
        SpatialChoiceIndex { by_point }
    }

    /// Choices of one tile.
    pub fn at<'a>(&'a self, device: &Device, point: Point) -> (result: &'a Vec<usize>)
        requires
            device.wf(),
            device.holds(point),
            self.by_point@.len() == device.width * device.height,
        ensures
            *result == self.by_point@[tile(device, point)],
    {
        proof {
            lemma_tile(device, point);
            assert(point.y * device.width <= u32::MAX) by (nonlinear_arith)
                requires
                    point.y < device.height,
                    device.width * device.height <= u32::MAX,
                    device.width > 0,
            ;
        }
        &self.by_point[(point.y as usize) * (device.width as usize) + (point.x as usize)]
    }
}

/// The choice begins within the distance of the tile.
pub open spec fn begins_within(
    choices: PlacementChoices,
    device: &Device,
    index: int,
    center: Point,
    distance: int,
) -> bool {
    &&& 0 <= index < choices.count()
    &&& choice_point(choices, device, index).distance(center) <= distance
}

/// No two tiles of a device are further apart than its extents.
pub proof fn lemma_device_span(device: &Device, a: Point, b: Point)
    requires
        device.holds(a),
        device.holds(b),
    ensures
        0 <= a.distance(b) < device.width + device.height,
{
}

/// Choices that begin within the distance of a tile.
pub(crate) fn spatial_choices_within(
    index: &SpatialChoiceIndex,
    center: Point,
    max_distance: u64,
    device: &Device,
    Ghost(choices): Ghost<PlacementChoices>,
) -> (result: OrderedSet<usize>)
    requires
        device.wf(),
        device.holds(center),
        choices_on_device(choices, device),
        index.indexes(choices, device),
    ensures
        result.wf(),
        forall|i: usize| #[trigger]
            result@.contains(i) <==> begins_within(
                choices,
                device,
                i as int,
                center,
                max_distance as int,
            ),
{
    let span: u64 = (device.width as u64) + (device.height as u64);
    proof {
        assert(span <= u32::MAX + 1) by (nonlinear_arith)
            requires
                span == device.width + device.height,
                device.width >= 1,
                device.height >= 1,
                device.width * device.height <= u32::MAX,
        ;
    }
    let limit: u64 = if max_distance < span {
        max_distance
    } else {
        span
    };
    let mut result: OrderedSet<usize> = OrderedSet::new();
    let mut radius: u64 = 0;
    while radius <= limit && radius <= u32::MAX as u64
        invariant
            radius <= limit + 1,
            radius <= u32::MAX + 1,
            span == device.width + device.height,
            span <= u32::MAX + 1,
            limit <= span,
            device.wf(),
            device.holds(center),
            choices_on_device(choices, device),
            index.indexes(choices, device),
            result.wf(),
            forall|i: usize| #[trigger]
                result@.contains(i) <==> begins_within(
                    choices,
                    device,
                    i as int,
                    center,
                    radius - 1,
                ),
        decreases limit + 1 - radius,
    {
        let points = ring_points(center, radius as u32, device);
        let ghost before = result@;
        let mut at: usize = 0;
        while at < points.len()
            invariant
                at <= points@.len(),
                device.wf(),
                index.indexes(choices, device),
                forall|p: Point| #[trigger]
                    points@.contains(p) <==> device.holds(p) && p.distance(center) == radius,
                result.wf(),
                forall|i: usize| #[trigger]
                    result@.contains(i) <==> before.contains(i) || listed_before(
                        choices,
                        device,
                        points@,
                        at as int,
                        i as int,
                    ),
            decreases points@.len() - at,
        {
            let point = points[at];
            assert(points@.contains(point));
            let ghost middle = result@;
            let bucket = index.at(device, point);
            result.extend(bucket.as_slice());
            proof {
                assert forall|i: usize| #[trigger] result@.contains(i) <==> before.contains(i)
                    || listed_before(choices, device, points@, at + 1, i as int) by {
                    assert(middle.contains(i) <==> before.contains(i) || listed_before(
                        choices,
                        device,
                        points@,
                        at as int,
                        i as int,
                    ));
                    assert(bucket@.to_set().contains(i) <==> bucket@.contains(i));
                    assert(index.by_point@[tile(device, point)]@.contains(i) <==> begins_at(
                        choices,
                        device,
                        i as int,
                        point,
                    ));
                    if listed_before(choices, device, points@, at as int, i as int) {
                        let k = choose|k: int|
                            0 <= k < at && begins_at(
                                choices,
                                device,
                                i as int,
                                #[trigger] points@[k],
                            );
                        assert(begins_at(choices, device, i as int, points@[k]));
                    }
                    if begins_at(choices, device, i as int, point) {
                        assert(begins_at(choices, device, i as int, points@[at as int]));
                    }
                    if listed_before(choices, device, points@, at + 1, i as int) {
                        let k = choose|k: int|
                            0 <= k < at + 1 && begins_at(
                                choices,
                                device,
                                i as int,
                                #[trigger] points@[k],
                            );
                        if k < at {
                            assert(begins_at(choices, device, i as int, points@[k]));
                        }
                    }
                }
            }
            at = at + 1;
        }
        proof {
            assert forall|i: usize| #[trigger] result@.contains(i) <==> begins_within(
                choices,
                device,
                i as int,
                center,
                radius as int,
            ) by {
                lemma_listed_ring(choices, device, center, radius as int, points@, i as int);
                assert(before.contains(i) <==> begins_within(
                    choices,
                    device,
                    i as int,
                    center,
                    radius - 1,
                ));
            }
        }
        radius = radius + 1;
    }
    proof {
        assert forall|i: usize| #[trigger] result@.contains(i) <==> begins_within(
            choices,
            device,
            i as int,
            center,
            max_distance as int,
        ) by {
            assert(result@.contains(i) <==> begins_within(
                choices,
                device,
                i as int,
                center,
                radius - 1,
            ));
            if 0 <= i < choices.count() {
                assert(choices.row(i as int).len() > 0);
                lemma_device_span(device, choice_point(choices, device, i as int), center);
            }
        }
    }
    result
}

/// The choice begins on one of the first tiles.
pub open spec fn listed_before(
    choices: PlacementChoices,
    device: &Device,
    points: Seq<Point>,
    count: int,
    index: int,
) -> bool {
    exists|k: int| 0 <= k < count && begins_at(choices, device, index, #[trigger] points[k])
}

/// The choices of a ring are those at its distance.
pub proof fn lemma_listed_ring(
    choices: PlacementChoices,
    device: &Device,
    center: Point,
    radius: int,
    points: Seq<Point>,
    index: int,
)
    requires
        device.wf(),
        choices_on_device(choices, device),
        forall|p: Point| #[trigger]
            points.contains(p) <==> device.holds(p) && p.distance(center) == radius,
    ensures
        listed_before(choices, device, points, points.len() as int, index) <==> (0 <= index
            < choices.count() && choice_point(choices, device, index).distance(center) == radius),
{
    if 0 <= index < choices.count() {
        assert(choices.row(index).len() > 0);
        let point = choice_point(choices, device, index);
        assert(device.holds(point));
        if point.distance(center) == radius {
            assert(points.contains(point));
            let k = points.index_of(point);
            assert(begins_at(choices, device, index, points[k]));
        }
        if listed_before(choices, device, points, points.len() as int, index) {
            let k = choose|k: int|
                0 <= k < points.len() && begins_at(choices, device, index, #[trigger] points[k]);
            assert(points.contains(points[k]));
        }
    }
}

} // verus!
