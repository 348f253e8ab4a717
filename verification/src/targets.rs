//! Where a unit is pulled by its nets and its critical arcs.

use vstd::prelude::*;

use crate::bbox::{bounds, bounds_are_extremes, highest, lowest};
use crate::device::{Device, UnifiedGraph};
use crate::medians::{
    clamped, detailed_interval_median, interval_gap, interval_median, is_weighted_median,
    weighted_median_coordinate, TimingPull,
};
use crate::model::{BelId, CellId, Connection, NetId, Point, ResourceKind};
use crate::net_span::{
    along, driver_cell, is_clock_net, lemma_endpoints, lies_at, net_cells, Axis,
};
use crate::ordered::OrderedSet;
use crate::row_cost::{bel_point, has_cell, placed_on_device};
use crate::units::PlacementUnit;
use crate::usage_model::cells_in_range;

verus! {

/// A critical arc of a net.
#[derive(Clone, Copy, Debug, PartialEq, Eq, Structural)]
pub struct TimingArc {
    /// Net and sink.
    pub arc: Connection,
    /// How critical it is, above the baseline of one.
    pub criticality: u64,
}

/// One of the cells on the side of the unit, or off it, lies at the coordinate.
pub open spec fn on_side(
    cells: Seq<CellId>,
    unit: Seq<CellId>,
    inside: bool,
    device: &Device,
    placed: Seq<Option<BelId>>,
    axis: Axis,
    coordinate: u32,
) -> bool {
    exists|k: int|
        0 <= k < cells.len() && unit.contains(#[trigger] cells[k]) == inside && lies_at(
            device,
            placed[cells[k].0 as int],
            axis,
            coordinate,
        )
}

/// Coordinates of the cells of the unit, or of the others.
pub open spec fn side(
    cells: Seq<CellId>,
    unit: Seq<CellId>,
    inside: bool,
    device: &Device,
    placed: Seq<Option<BelId>>,
    axis: Axis,
) -> Set<u32> {
    Set::new(|c: u32| on_side(cells, unit, inside, device, placed, axis, c))
}

/// The interval between two positions.
pub open spec fn between(a: int, b: int) -> (i64, i64) {
    if a <= b {
        (a as i64, b as i64)
    } else {
        (b as i64, a as i64)
    }
}

/// Origins of the unit at which the box of the net is smallest; none where the
/// net costs nothing, or lies within the unit or outside of it.
pub open spec fn pull_interval(
    graph: UnifiedGraph<'_>,
    unit: Seq<CellId>,
    net: int,
    placed: Seq<Option<BelId>>,
    axis: Axis,
) -> Option<(i64, i64)> {
    let cells = net_cells(graph.design, net);
    let inner = side(cells, unit, true, graph.device, placed, axis);
    let outer = side(cells, unit, false, graph.device, placed, axis);
    let origin = along(bel_point(graph.device, placed[unit[0].0 as int]->0), axis);
    if is_clock_net(graph.design, net) || inner == Set::<u32>::empty() || outer == Set::<
        u32,
    >::empty() {
        None
    } else {
        Some(
            between(
                lowest(outer) - (lowest(inner) - origin),
                highest(outer) - (highest(inner) - origin),
            ),
        )
    }
}

/// Intervals of the nets that pull.
pub open spec fn pull_intervals(
    graph: UnifiedGraph<'_>,
    unit: Seq<CellId>,
    nets: Seq<NetId>,
    placed: Seq<Option<BelId>>,
    axis: Axis,
) -> Seq<(i64, i64)>
    decreases nets.len(),
{
    if nets.len() == 0 {
        Seq::empty()
    } else {
        let rest = pull_intervals(graph, unit, nets.drop_last(), placed, axis);
        match pull_interval(graph, unit, nets.last().0 as int, placed, axis) {
            Some(interval) => rest.push(interval),
            None => rest,
        }
    }
}

/// Origin of the unit at which the boxes of its nets are smallest.
pub open spec fn bbox_target(
    graph: UnifiedGraph<'_>,
    unit: Seq<CellId>,
    nets: Seq<NetId>,
    placed: Seq<Option<BelId>>,
) -> Option<Point> {
    let origin = bel_point(graph.device, placed[unit[0].0 as int]->0);
    let columns = interval_median(
        pull_intervals(graph, unit, nets, placed, Axis::Column),
        origin.x,
        graph.device.width,
    );
    let rows = interval_median(
        pull_intervals(graph, unit, nets, placed, Axis::Row),
        origin.y,
        graph.device.height,
    );
    match (columns, rows) {
        (Some(x), Some(y)) => Some(Point { x, y }),
        _ => None,
    }
}

/// The greater of two.
pub open spec fn greater(a: int, b: int) -> int {
    if a >= b {
        a
    } else {
        b
    }
}

/// The span of a net whose moving endpoints are translated is the least span
/// possible and the distance of the origin from the interval at which it is
/// reached.
pub proof fn translated_span_is_interval_gap(
    outer_low: u32,
    outer_high: u32,
    inner_low: i64,
    inner_high: i64,
    origin: u32,
)
    requires
        outer_low <= outer_high,
        -0x1_0000_0000 <= inner_low <= inner_high <= 0x1_0000_0000,
    ensures
        greater(outer_high as int, origin + inner_high) - (if outer_low <= origin + inner_low {
            outer_low as int
        } else {
            origin + inner_low
        }) == greater(outer_high - outer_low, inner_high - inner_low) + interval_gap(
            between(outer_low - inner_low, outer_high - inner_high),
            origin as int,
        ),
{
}

/// Corners of a box.
#[derive(Clone, Copy)]
struct Corners {
    least: Point,
    greatest: Point,
}

/// The corners are those of the cells on one side.
spec fn boxes_side(
    cells: Seq<CellId>,
    unit: Seq<CellId>,
    inside: bool,
    device: &Device,
    placed: Seq<Option<BelId>>,
    corners: Option<Corners>,
) -> bool {
    let columns = side(cells, unit, inside, device, placed, Axis::Column);
    let rows = side(cells, unit, inside, device, placed, Axis::Row);
    match corners {
        None => columns == Set::<u32>::empty() && rows == Set::<u32>::empty(),
        Some(corners) => bounds(columns, corners.least.x, corners.greatest.x) && bounds(
            rows,
            corners.least.y,
            corners.greatest.y,
        ),
    }
}

/// One more cell joins its side.
proof fn lemma_side_grows(
    cells: Seq<CellId>,
    cell: CellId,
    unit: Seq<CellId>,
    inside: bool,
    device: &Device,
    placed: Seq<Option<BelId>>,
    axis: Axis,
    bel: BelId,
)
    requires
        placed[cell.0 as int] == Some(bel),
    ensures
        side(cells.push(cell), unit, inside, device, placed, axis) == if unit.contains(cell)
            == inside {
            side(cells, unit, inside, device, placed, axis).insert(
                along(bel_point(device, bel), axis),
            )
        } else {
            side(cells, unit, inside, device, placed, axis)
        },
{
    let longer = cells.push(cell);
    let was = side(cells, unit, inside, device, placed, axis);
    let now = side(longer, unit, inside, device, placed, axis);
    let here = along(bel_point(device, bel), axis);
    assert forall|c: u32| #[trigger]
        now.contains(c) <==> was.contains(c) || (unit.contains(cell) == inside && c == here) by {
        if on_side(cells, unit, inside, device, placed, axis, c) {
            let k = choose|k: int|
                0 <= k < cells.len() && unit.contains(#[trigger] cells[k]) == inside && lies_at(
                    device,
                    placed[cells[k].0 as int],
                    axis,
                    c,
                );
            assert(longer[k] == cells[k]);
        }
        if unit.contains(cell) == inside && c == here {
            assert(longer[cells.len() as int] == cell);
        }
        if on_side(longer, unit, inside, device, placed, axis, c) {
            let k = choose|k: int|
                0 <= k < longer.len() && unit.contains(#[trigger] longer[k]) == inside && lies_at(
                    device,
                    placed[longer[k].0 as int],
                    axis,
                    c,
                );
            if k < cells.len() {
                assert(cells[k] == longer[k]);
            }
        }
    }
    if unit.contains(cell) == inside {
        assert(now =~= was.insert(here));
    } else {
        assert(now =~= was);
    }
}

/// Corners of the box with one more point.
fn widen(corners: Option<Corners>, point: Point) -> (result: Option<Corners>)
    ensures
        result matches Some(after) && match corners {
            None => after.least == point && after.greatest == point,
            Some(before) => {
                &&& after.least.x == if point.x < before.least.x {
                    point.x
                } else {
                    before.least.x
                }
                &&& after.least.y == if point.y < before.least.y {
                    point.y
                } else {
                    before.least.y
                }
                &&& after.greatest.x == if point.x > before.greatest.x {
                    point.x
                } else {
                    before.greatest.x
                }
                &&& after.greatest.y == if point.y > before.greatest.y {
                    point.y
                } else {
                    before.greatest.y
                }
            },
        },
{
    match corners {
        None => Some(Corners { least: point, greatest: point }),
        Some(before) => Some(
            Corners {
                least: Point {
                    x: if point.x < before.least.x {
                        point.x
                    } else {
                        before.least.x
                    },
                    y: if point.y < before.least.y {
                        point.y
                    } else {
                        before.least.y
                    },
                },
                greatest: Point {
                    x: if point.x > before.greatest.x {
                        point.x
                    } else {
                        before.greatest.x
                    },
                    y: if point.y > before.greatest.y {
                        point.y
                    } else {
                        before.greatest.y
                    },
                },
            },
        ),
    }
}

/// Ordered interval of two positions.
fn ordered_pair(a: i64, b: i64) -> (result: (i64, i64))
    ensures
        result == between(a as int, b as int),
{
    if a <= b {
        (a, b)
    } else {
        (b, a)
    }
}

/// Corners of the cells of a net that belong to the unit, and of the others.
fn net_corners(
    graph: &UnifiedGraph<'_>,
    unit: &PlacementUnit,
    net: NetId,
    placed: &Vec<Option<BelId>>,
) -> (result: (Option<Corners>, Option<Corners>))
    requires
        graph.wf(),
        net.0 < graph.design.nets@.len(),
        placed@.len() == graph.design.cells@.len(),
        placed_on_device(graph.device, placed@),
        forall|c: int| 0 <= c < placed@.len() ==> (#[trigger] placed@[c]) is Some,
    ensures
        boxes_side(
            net_cells(graph.design, net.0 as int),
            unit.cells@,
            true,
            graph.device,
            placed@,
            result.0,
        ),
        boxes_side(
            net_cells(graph.design, net.0 as int),
            unit.cells@,
            false,
            graph.device,
            placed@,
            result.1,
        ),
{
    let design = graph.design();
    let device = graph.device();
    let logical = &design.nets[net.0];
    let ghost cells = net_cells(design, net.0 as int);
    proof {
        lemma_endpoints(design, net.0 as int);
        assert(design.nets@[net.0 as int].driver.0 < design.pins@.len());
        assert(design.pins.len() == design.pins@.len());
    }
    let mut inner: Option<Corners> = None;
    let mut outer: Option<Corners> = None;
    let mut read: usize = 0;
    proof {
        assert(cells.take(0) =~= Seq::<CellId>::empty());
        assert(side(cells.take(0), unit.cells@, true, device, placed@, Axis::Column) =~= Set::<
            u32,
        >::empty());
        assert(side(cells.take(0), unit.cells@, true, device, placed@, Axis::Row) =~= Set::<
            u32,
        >::empty());
        assert(side(cells.take(0), unit.cells@, false, device, placed@, Axis::Column) =~= Set::<
            u32,
        >::empty());
        assert(side(cells.take(0), unit.cells@, false, device, placed@, Axis::Row) =~= Set::<
            u32,
        >::empty());
    }
    while read <= logical.sinks.len()
        invariant
            read <= 1 + logical.sinks@.len(),
            1 + logical.sinks@.len() <= usize::MAX,
            graph.wf(),
            design == graph.design,
            device == graph.device,
            net.0 < design.nets@.len(),
            *logical == design.nets@[net.0 as int],
            logical.driver.0 < design.pins@.len(),
            placed@.len() == design.cells@.len(),
            placed_on_device(device, placed@),
            forall|c: int| 0 <= c < placed@.len() ==> (#[trigger] placed@[c]) is Some,
            cells == net_cells(design, net.0 as int),
            forall|k: int| 0 <= k < cells.len() ==> (#[trigger] cells[k]).0 < design.cells@.len(),
            boxes_side(cells.take(read as int), unit.cells@, true, device, placed@, inner),
            boxes_side(cells.take(read as int), unit.cells@, false, device, placed@, outer),
        decreases 1 + logical.sinks@.len() - read,
    {
        let cell: CellId = if read == 0 {
            design.pins[logical.driver.0].cell
        } else {
            assert(design.nets@[net.0 as int].sinks@[read - 1].0 < design.pins@.len());
            design.pins[logical.sinks[read - 1].0].cell
        };
        assert(cells[read as int] == cell);
        assert(placed@[cell.0 as int] is Some);
        let bel: BelId = match placed[cell.0] {
            Some(bel) => bel,
            None => BelId(0),
        };
        let point = device.bels[bel.0].point;
        let ghost done = cells.take(read as int);
        proof {
            assert(cells.take(read + 1) =~= done.push(cell));
            lemma_side_grows(done, cell, unit.cells@, true, device, placed@, Axis::Column, bel);
            lemma_side_grows(done, cell, unit.cells@, true, device, placed@, Axis::Row, bel);
            lemma_side_grows(done, cell, unit.cells@, false, device, placed@, Axis::Column, bel);
            lemma_side_grows(done, cell, unit.cells@, false, device, placed@, Axis::Row, bel);
        }
        if has_cell(&unit.cells, cell) {
            inner = widen(inner, point);
        } else {
            outer = widen(outer, point);
        }
        read = read + 1;
    }
    assert(cells.take(read as int) =~= cells);
    (inner, outer)
}

/// Coordinate-wise minimizer of the half-perimeters of the unit's nets where
/// the unit is translated and every other endpoint stays.
///
/// For one net, all translations whose moving endpoint interval overlaps (or
/// contains) the fixed endpoint interval have minimum span. The sum over nets
/// is a sum of distances to those intervals, whose minimizer is the middle
/// pair of their sorted endpoints. This gives one canonical target without an
/// arbitrary spatial radius and retains every rigid macro member offset.
pub fn detailed_bbox_target(
    graph: &UnifiedGraph<'_>,
    unit: &PlacementUnit,
    nets: &Vec<NetId>,
    placed: &Vec<Option<BelId>>,
) -> (result: Option<Point>)
    requires
        graph.wf(),
        unit.cells@.len() > 0,
        cells_in_range(unit.cells@, graph.design.cells@.len() as int),
        forall|i: int| 0 <= i < nets@.len() ==> (#[trigger] nets@[i]).0 < graph.design.nets@.len(),
        placed@.len() == graph.design.cells@.len(),
        placed_on_device(graph.device, placed@),
        forall|c: int| 0 <= c < placed@.len() ==> (#[trigger] placed@[c]) is Some,
    ensures
        result == bbox_target(*graph, unit.cells@, nets@, placed@),
        result matches Some(point) ==> graph.device.holds(point),
{
    let design = graph.design();
    let device = graph.device();
    assert(unit.cells@[0].0 < placed@.len());
    assert(placed@[unit.cells@[0].0 as int] is Some);
    let bel: BelId = match placed[unit.cells[0].0] {
        Some(bel) => bel,
        None => BelId(0),
    };
    let origin = device.bels[bel.0].point;
    let mut x_intervals: Vec<(i64, i64)> = Vec::new();
    let mut y_intervals: Vec<(i64, i64)> = Vec::new();
    let mut index: usize = 0;
    while index < nets.len()
        invariant
            index <= nets@.len(),
            graph.wf(),
            design == graph.design,
            device == graph.device,
            unit.cells@.len() > 0,
            forall|i: int|
                0 <= i < nets@.len() ==> (#[trigger] nets@[i]).0 < graph.design.nets@.len(),
            placed@.len() == graph.design.cells@.len(),
            placed_on_device(graph.device, placed@),
            forall|c: int| 0 <= c < placed@.len() ==> (#[trigger] placed@[c]) is Some,
            origin == bel_point(device, placed@[unit.cells@[0].0 as int]->0),
            x_intervals@ == pull_intervals(
                *graph,
                unit.cells@,
                nets@.take(index as int),
                placed@,
                Axis::Column,
            ),
            y_intervals@ == pull_intervals(
                *graph,
                unit.cells@,
                nets@.take(index as int),
                placed@,
                Axis::Row,
            ),
        decreases nets@.len() - index,
    {
        let net = nets[index];
        proof {
            assert(nets@[index as int].0 < graph.design.nets@.len());
            assert(nets@.take(index + 1).drop_last() =~= nets@.take(index as int));
            assert(nets@.take(index + 1).last() == net);
            lemma_endpoints(design, net.0 as int);
            assert(design.nets@[net.0 as int].driver.0 < design.pins@.len());
            assert(net_cells(design, net.0 as int)[0].0 < design.cells@.len());
        }
        let driver = design.pins[design.nets[net.0].driver.0].cell;
        match design.cells[driver.0].kind {
            ResourceKind::Clock => {},
            _ => {
                let corners = net_corners(graph, unit, net, placed);
                let ghost cells = net_cells(design, net.0 as int);
                if let (Some(inner), Some(outer)) = corners {
                    proof {
                        bounds_are_extremes(
                            side(cells, unit.cells@, true, device, placed@, Axis::Column),
                            inner.least.x,
                            inner.greatest.x,
                        );
                        bounds_are_extremes(
                            side(cells, unit.cells@, true, device, placed@, Axis::Row),
                            inner.least.y,
                            inner.greatest.y,
                        );
                        bounds_are_extremes(
                            side(cells, unit.cells@, false, device, placed@, Axis::Column),
                            outer.least.x,
                            outer.greatest.x,
                        );
                        bounds_are_extremes(
                            side(cells, unit.cells@, false, device, placed@, Axis::Row),
                            outer.least.y,
                            outer.greatest.y,
                        );
                        assert(side(
                            cells,
                            unit.cells@,
                            true,
                            device,
                            placed@,
                            Axis::Column,
                        ).contains(inner.least.x));
                        assert(side(
                            cells,
                            unit.cells@,
                            true,
                            device,
                            placed@,
                            Axis::Row,
                        ).contains(inner.least.y));
                        assert(side(
                            cells,
                            unit.cells@,
                            false,
                            device,
                            placed@,
                            Axis::Column,
                        ).contains(outer.least.x));
                        assert(side(
                            cells,
                            unit.cells@,
                            false,
                            device,
                            placed@,
                            Axis::Row,
                        ).contains(outer.least.y));
                    }
                    let x: i64 = origin.x as i64;
                    let y: i64 = origin.y as i64;
                    x_intervals.push(
                        ordered_pair(
                            outer.least.x as i64 - (inner.least.x as i64 - x),
                            outer.greatest.x as i64 - (inner.greatest.x as i64 - x),
                        ),
                    );
                    y_intervals.push(
                        ordered_pair(
                            outer.least.y as i64 - (inner.least.y as i64 - y),
                            outer.greatest.y as i64 - (inner.greatest.y as i64 - y),
                        ),
                    );
                }
            },
        }
        index = index + 1;
    }
    assert(nets@.take(index as int) =~= nets@);
    let columns = detailed_interval_median(x_intervals.as_slice(), origin.x, device.width);
    let rows = detailed_interval_median(y_intervals.as_slice(), origin.y, device.height);
    match (columns, rows) {
        (Some(x), Some(y)) => Some(Point { x, y }),
        _ => None,
    }
}

/// Coordinate of the origin that puts the member at the target, on the device.
pub open spec fn shifted(origin: u32, member: u32, target: u32, extent: u32) -> u32 {
    clamped(origin + target - member, 0, extent - 1) as u32
}

/// Origin of the unit that puts the member at the target, as far as the device goes.
pub open spec fn member_origin(
    device: &Device,
    unit: Seq<CellId>,
    member: CellId,
    target: Point,
    placed: Seq<Option<BelId>>,
) -> Point {
    let origin = bel_point(device, placed[unit[0].0 as int]->0);
    let stands = bel_point(device, placed[member.0 as int]->0);
    Point {
        x: shifted(origin.x, stands.x, target.x, device.width),
        y: shifted(origin.y, stands.y, target.y, device.height),
    }
}

/// Coordinate of the origin that puts the member at the target.
fn translate(origin: u32, member: u32, target: u32, extent: u32) -> (result: u32)
    requires
        extent > 0,
    ensures
        result == shifted(origin, member, target, extent),
{
    let last: i64 = extent as i64 - 1;
    let coordinate: i64 = origin as i64 + target as i64 - member as i64;
    if coordinate < 0 {
        0
    } else if coordinate > last {
        last as u32
    } else {
        coordinate as u32
    }
}

/// Origin of the unit that puts the member at the target.
pub fn detailed_member_target_origin(
    graph: &UnifiedGraph<'_>,
    unit: &PlacementUnit,
    member: CellId,
    target: Point,
    placed: &Vec<Option<BelId>>,
) -> (result: Option<Point>)
    requires
        graph.wf(),
        unit.cells@.len() > 0,
        placed_on_device(graph.device, placed@),
    ensures
        result is Some <==> unit.cells@[0].0 < placed@.len() && placed@[unit.cells@[0].0 as int]
            is Some && member.0 < placed@.len() && placed@[member.0 as int] is Some,
        result matches Some(point) ==> graph.device.holds(point) && point == member_origin(
            graph.device,
            unit.cells@,
            member,
            target,
            placed@,
        ),
{
    let device = graph.device();
    if unit.cells[0].0 >= placed.len() || member.0 >= placed.len() {
        return None;
    }
    match (placed[unit.cells[0].0], placed[member.0]) {
        (Some(origin_bel), Some(member_bel)) => {
            let origin = device.bels[origin_bel.0].point;
            let stands = device.bels[member_bel.0].point;
            Some(
                Point {
                    x: translate(origin.x, stands.x, target.x, device.width),
                    y: translate(origin.y, stands.y, target.y, device.height),
                },
            )
        },
        _ => None,
    }
}

/// Cell of the sink of an arc.
pub open spec fn sink_cell(graph: UnifiedGraph<'_>, arc: Connection) -> CellId {
    graph.design.pins@[arc.sink.0 as int].cell
}

/// How an arc pulls the unit: one end of the arc belongs to it and is drawn to
/// the other end.
pub open spec fn pull_of(
    graph: UnifiedGraph<'_>,
    unit: Seq<CellId>,
    timing: TimingArc,
    placed: Seq<Option<BelId>>,
) -> Option<TimingPull> {
    let driver = driver_cell(graph.design, timing.arc.net.0 as int);
    let sink = sink_cell(graph, timing.arc);
    if unit.contains(driver) == unit.contains(sink) {
        None
    } else {
        let moving = if unit.contains(driver) {
            driver
        } else {
            sink
        };
        let opposite = if unit.contains(driver) {
            sink
        } else {
            driver
        };
        Some(
            TimingPull {
                point: member_origin(
                    graph.device,
                    unit,
                    moving,
                    bel_point(graph.device, placed[opposite.0 as int]->0),
                    placed,
                ),
                weight: (timing.criticality - 1) as u64,
            },
        )
    }
}

/// Pulls of the arcs.
pub open spec fn pulls_of(
    graph: UnifiedGraph<'_>,
    unit: Seq<CellId>,
    arcs: Seq<TimingArc>,
    listed: Seq<usize>,
    placed: Seq<Option<BelId>>,
) -> Seq<TimingPull>
    decreases listed.len(),
{
    if listed.len() == 0 {
        Seq::empty()
    } else {
        let rest = pulls_of(graph, unit, arcs, listed.drop_last(), placed);
        match pull_of(graph, unit, arcs[listed.last() as int], placed) {
            Some(pull) => rest.push(pull),
            None => rest,
        }
    }
}

/// The point is where an arc pulls to.
pub open spec fn is_pulled_to(pulls: Seq<TimingPull>, point: Point) -> bool {
    exists|i: int| 0 <= i < pulls.len() && (#[trigger] pulls[i]).point == point
}

/// The unit is offered places around the point: it is the minimizer of the
/// boxes of its nets, a place an arc pulls to, or the weighted median of those.
pub open spec fn is_target(
    graph: UnifiedGraph<'_>,
    unit: Seq<CellId>,
    nets: Seq<NetId>,
    arcs: Seq<TimingArc>,
    listed: Seq<usize>,
    placed: Seq<Option<BelId>>,
    point: Point,
) -> bool {
    let pulls = pulls_of(graph, unit, arcs, listed, placed);
    ||| bbox_target(graph, unit, nets, placed) == Some(point)
    ||| is_pulled_to(pulls, point)
    ||| is_weighted_median(pulls, Axis::Column, Some(point.x)) && is_weighted_median(
        pulls,
        Axis::Row,
        Some(point.y),
    )
}

/// Arcs of the design, more critical than the baseline.
pub open spec fn arcs_in_range(graph: UnifiedGraph<'_>, arcs: Seq<TimingArc>) -> bool {
    forall|i: int|
        0 <= i < arcs.len() ==> (#[trigger] arcs[i]).arc.net.0 < graph.design.nets@.len()
            && arcs[i].arc.sink.0 < graph.design.pins@.len() && arcs[i].criticality > 1
}

/// Canonical physical targets for one detailed-placement unit.
///
/// The exact incident-net HPWL minimizer supplies the ordinary wirelength
/// target. Every critical arc additionally contributes the origin translation
/// that puts its moving member on the opposite endpoint, together with the
/// criticality-weighted coordinate median of those translations. Targets are
/// recomputed after each accepted placement change and projected onto their
/// nearest legal assignment ring by the caller.
pub fn detailed_placement_targets(
    graph: &UnifiedGraph<'_>,
    unit: &PlacementUnit,
    nets: &Vec<NetId>,
    arcs: &Vec<TimingArc>,
    listed: &Vec<usize>,
    placed: &Vec<Option<BelId>>,
) -> (result: OrderedSet<Point>)
    requires
        graph.wf(),
        unit.cells@.len() > 0,
        cells_in_range(unit.cells@, graph.design.cells@.len() as int),
        forall|i: int| 0 <= i < nets@.len() ==> (#[trigger] nets@[i]).0 < graph.design.nets@.len(),
        arcs_in_range(*graph, arcs@),
        forall|i: int| 0 <= i < listed@.len() ==> #[trigger] listed@[i] < arcs@.len(),
        placed@.len() == graph.design.cells@.len(),
        placed_on_device(graph.device, placed@),
        forall|c: int| 0 <= c < placed@.len() ==> (#[trigger] placed@[c]) is Some,
    ensures
        result.wf(),
        forall|p: Point| #[trigger]
            result@.contains(p) <==> is_target(
                *graph,
                unit.cells@,
                nets@,
                arcs@,
                listed@,
                placed@,
                p,
            ),
        forall|p: Point| #[trigger] result@.contains(p) ==> graph.device.holds(p),
{
    let design = graph.design();
    let device = graph.device();
    let mut pulls: Vec<TimingPull> = Vec::new();
    let mut targets: OrderedSet<Point> = OrderedSet::new();
    let mut index: usize = 0;
    while index < listed.len()
        invariant
            index <= listed@.len(),
            graph.wf(),
            design == graph.design,
            device == graph.device,
            unit.cells@.len() > 0,
            cells_in_range(unit.cells@, graph.design.cells@.len() as int),
            arcs_in_range(*graph, arcs@),
            forall|i: int| 0 <= i < listed@.len() ==> #[trigger] listed@[i] < arcs@.len(),
            placed@.len() == graph.design.cells@.len(),
            placed_on_device(graph.device, placed@),
            forall|c: int| 0 <= c < placed@.len() ==> (#[trigger] placed@[c]) is Some,
            targets.wf(),
            pulls@ == pulls_of(
                *graph,
                unit.cells@,
                arcs@,
                listed@.take(index as int),
                placed@,
            ),
            forall|p: Point| #[trigger] targets@.contains(p) <==> is_pulled_to(pulls@, p),
            forall|p: Point| #[trigger] targets@.contains(p) ==> device.holds(p),
        decreases listed@.len() - index,
    {
        assert(listed@[index as int] < arcs@.len());
        let timing = arcs[listed[index]];
        proof {
            assert(listed@.take(index + 1).drop_last() =~= listed@.take(index as int));
            assert(listed@.take(index + 1).last() == listed@[index as int]);
            assert(arcs@[listed@[index as int] as int].criticality > 1);
            lemma_endpoints(design, timing.arc.net.0 as int);
            assert(design.nets@[timing.arc.net.0 as int].driver.0 < design.pins@.len());
            assert(net_cells(design, timing.arc.net.0 as int)[0].0 < design.cells@.len());
            assert(design.pins@[timing.arc.sink.0 as int].cell.0 < design.cells@.len());
        }
        let driver = design.pins[design.nets[timing.arc.net.0].driver.0].cell;
        let sink = design.pins[timing.arc.sink.0].cell;
        let holds_driver = has_cell(&unit.cells, driver);
        let holds_sink = has_cell(&unit.cells, sink);
        if holds_driver != holds_sink {
            let moving: CellId = if holds_driver {
                driver
            } else {
                sink
            };
            let opposite: CellId = if holds_driver {
                sink
            } else {
                driver
            };
            assert(placed@[opposite.0 as int] is Some);
            assert(placed@[moving.0 as int] is Some);
            assert(unit.cells@[0].0 < placed@.len());
            assert(placed@[unit.cells@[0].0 as int] is Some);
            let bel: BelId = match placed[opposite.0] {
                Some(bel) => bel,
                None => BelId(0),
            };
            let toward = device.bels[bel.0].point;
            if let Some(point) = detailed_member_target_origin(
                graph,
                unit,
                moving,
                toward,
                placed,
            ) {
                let ghost before = pulls@;
                let pull = TimingPull { point, weight: timing.criticality - 1 };
                pulls.push(pull);
                let _ = targets.insert(point);
                proof {
                    assert forall|p: Point| #[trigger]
                        targets@.contains(p) <==> is_pulled_to(pulls@, p) by {
                        if is_pulled_to(before, p) {
                            let i = choose|i: int|
                                0 <= i < before.len() && (#[trigger] before[i]).point == p;
                            assert(pulls@[i].point == p);
                        }
                        if p == point {
                            assert(pulls@[before.len() as int].point == p);
                        }
                        if is_pulled_to(pulls@, p) && p != point {
                            let i = choose|i: int|
                                0 <= i < pulls@.len() && (#[trigger] pulls@[i]).point == p;
                            assert(before[i].point == p);
                        }
                    }
                }
            }
        }
        index = index + 1;
    }
    assert(listed@.take(index as int) =~= listed@);
    let ghost pulled = targets@;
    if let Some(target) = detailed_bbox_target(graph, unit, nets, placed) {
        let _ = targets.insert(target);
    }
    let column = weighted_median_coordinate(&pulls, Axis::Column);
    let row = weighted_median_coordinate(&pulls, Axis::Row);
    proof {
        assert forall|p: Point|
            is_weighted_median(pulls@, Axis::Column, Some(p.x)) && is_weighted_median(
                pulls@,
                Axis::Row,
                Some(p.y),
            ) implies #[trigger] device.holds(p) && column == Some(p.x) && row == Some(p.y) by {
            crate::medians::weighted_median_is_unique(pulls@, Axis::Column, column, Some(p.x));
            crate::medians::weighted_median_is_unique(pulls@, Axis::Row, row, Some(p.y));
            let i = choose|i: int|
                0 <= i < pulls@.len() && along((#[trigger] pulls@[i]).point, Axis::Column) == p.x;
            let j = choose|i: int|
                0 <= i < pulls@.len() && along((#[trigger] pulls@[i]).point, Axis::Row) == p.y;
            assert(is_pulled_to(pulls@, pulls@[i].point));
            assert(is_pulled_to(pulls@, pulls@[j].point));
            assert(pulled.contains(pulls@[i].point));
            assert(pulled.contains(pulls@[j].point));
        }
    }
    if let (Some(x), Some(y)) = (column, row) {
        assert(device.holds(Point { x, y }));
        let _ = targets.insert(Point { x, y });
    }
    targets
}

} // verus!
