//! Boxes over which the routing demand of nets is spread.

use vstd::prelude::*;

use crate::bbox::{bounds, bounds_are_extremes, highest, lowest};
use crate::device::Device;
use crate::model::{CellId, Design, Point, ResourceKind};
use crate::net_span::{along, driver_cell, is_clock_net, lemma_endpoints, net_cells, Axis};
use crate::placement::Placement;
use crate::routing_demand::{RoutingCapacityMap, RoutingChannelOrientation};

verus! {

/// Inclusive bounding box of a net's placed endpoints.
#[derive(Clone, Copy, Debug, PartialEq, Eq, Structural)]
pub struct DemandBox {
    /// Corner with the least coordinates.
    pub least: Point,
    /// Corner with the greatest coordinates.
    pub greatest: Point,
}

/// Boxes of the nets that demand routing.
#[derive(Clone, Debug, PartialEq, Eq)]
pub struct DemandBoxes {
    /// Boxes of non-clock nets, in net order.
    pub boxes: Vec<DemandBox>,
    /// Number of clock-driven nets, which are left out.
    pub excluded_clock_nets: usize,
}

/// Where a cell is placed.
pub open spec fn point_of(placement: &Placement, device: &Device, cell: CellId) -> Option<Point> {
    match placement.bel_of(cell) {
        Some(bel) => if bel.0 < device.bels@.len() {
            Some(device.bels@[bel.0 as int].point)
        } else {
            None
        },
        None => None,
    }
}

/// One of the cells is placed at the coordinate.
pub open spec fn reaches_to(
    cells: Seq<CellId>,
    placement: &Placement,
    device: &Device,
    axis: Axis,
    coordinate: u32,
) -> bool {
    exists|k: int|
        0 <= k < cells.len() && (point_of(placement, device, #[trigger] cells[k]) matches Some(
            point,
        ) && along(point, axis) == coordinate)
}

/// Coordinates at which the cells are placed.
pub open spec fn reach(
    cells: Seq<CellId>,
    placement: &Placement,
    device: &Device,
    axis: Axis,
) -> Set<u32> {
    Set::new(|c: u32| reaches_to(cells, placement, device, axis, c))
}

/// Box of a net; none where its driver is a clock or is not placed.
pub open spec fn box_of(design: &Design, device: &Device, placement: &Placement, net: int) -> Option<
    DemandBox,
> {
    let cells = net_cells(design, net);
    let columns = reach(cells, placement, device, Axis::Column);
    let rows = reach(cells, placement, device, Axis::Row);
    if is_clock_net(design, net) || point_of(placement, device, driver_cell(design, net)) is None {
        None
    } else {
        Some(
            DemandBox {
                least: Point { x: lowest(columns), y: lowest(rows) },
                greatest: Point { x: highest(columns), y: highest(rows) },
            },
        )
    }
}

/// Boxes of the first nets.
pub open spec fn boxes_upto(
    design: &Design,
    device: &Device,
    placement: &Placement,
    count: int,
) -> Seq<DemandBox>
    decreases count,
{
    if count <= 0 {
        Seq::empty()
    } else {
        let rest = boxes_upto(design, device, placement, count - 1);
        match box_of(design, device, placement, count - 1) {
            Some(found) => rest.push(found),
            None => rest,
        }
    }
}

/// Number of clock-driven nets among the first.
pub open spec fn clocks_upto(design: &Design, count: int) -> int
    decreases count,
{
    if count <= 0 {
        0
    } else {
        clocks_upto(design, count - 1) + if is_clock_net(design, count - 1) {
            1int
        } else {
            0int
        }
    }
}

/// One more cell joins.
proof fn lemma_reach_grows(
    cells: Seq<CellId>,
    cell: CellId,
    placement: &Placement,
    device: &Device,
    axis: Axis,
)
    ensures
        reach(cells.push(cell), placement, device, axis) == match point_of(
            placement,
            device,
            cell,
        ) {
            Some(point) => reach(cells, placement, device, axis).insert(along(point, axis)),
            None => reach(cells, placement, device, axis),
        },
{
    let longer = cells.push(cell);
    let was = reach(cells, placement, device, axis);
    let now = reach(longer, placement, device, axis);
    let own = point_of(placement, device, cell);
    assert forall|c: u32| #[trigger]
        now.contains(c) <==> was.contains(c) || (own matches Some(point) && along(point, axis)
            == c) by {
        if reaches_to(cells, placement, device, axis, c) {
            let k = choose|k: int|
                0 <= k < cells.len() && (point_of(
                    placement,
                    device,
                    #[trigger] cells[k],
                ) matches Some(point) && along(point, axis) == c);
            assert(longer[k] == cells[k]);
        }
        if own is Some && along(own->0, axis) == c {
            assert(longer[cells.len() as int] == cell);
        }
        if reaches_to(longer, placement, device, axis, c) {
            let k = choose|k: int|
                0 <= k < longer.len() && (point_of(
                    placement,
                    device,
                    #[trigger] longer[k],
                ) matches Some(point) && along(point, axis) == c);
            if k < cells.len() {
                assert(cells[k] == longer[k]);
            }
        }
    }
    match own {
        Some(point) => {
            assert(now =~= was.insert(along(point, axis)));
        },
        None => {
            assert(now =~= was);
        },
    }
}

/// Box of a net's placed endpoints.
pub fn net_demand_box(design: &Design, device: &Device, placement: &Placement, net: usize) -> (result:
    Option<DemandBox>)
    requires
        design.wf(),
        net < design.nets@.len(),
    ensures
        result == box_of(design, device, placement, net as int),
{
    let record = &design.nets[net];
    let ghost cells = net_cells(design, net as int);
    proof {
        lemma_endpoints(design, net as int);
        assert(design.nets@[net as int].driver.0 < design.pins@.len());
        assert(design.pins.len() == design.pins@.len());
    }
    let driver = design.pins[record.driver.0].cell;
    assert(cells[0] == driver);
    match design.cells[driver.0].kind {
        ResourceKind::Clock => {
            return None;
        },
        _ => {},
    }
    let start: Point = match placement.point(driver, device) {
        Some(point) => point,
        None => {
            return None;
        },
    };
    let mut least: Point = start;
    let mut greatest: Point = start;
    let mut read: usize = 0;
    proof {
        let none = Seq::<CellId>::empty();
        assert(reach(none, placement, device, Axis::Column) =~= Set::<u32>::empty());
        assert(reach(none, placement, device, Axis::Row) =~= Set::<u32>::empty());
        lemma_reach_grows(none, driver, placement, device, Axis::Column);
        lemma_reach_grows(none, driver, placement, device, Axis::Row);
        assert(cells.take(1) =~= none.push(driver));
    }
    while read < record.sinks.len()
        invariant
            read <= record.sinks@.len(),
            design.wf(),
            net < design.nets@.len(),
            *record == design.nets@[net as int],
            cells == net_cells(design, net as int),
            bounds(
                reach(cells.take(read + 1), placement, device, Axis::Column),
                least.x,
                greatest.x,
            ),
            bounds(
                reach(cells.take(read + 1), placement, device, Axis::Row),
                least.y,
                greatest.y,
            ),
        decreases record.sinks@.len() - read,
    {
        assert(design.nets@[net as int].sinks@[read as int].0 < design.pins@.len());
        let cell = design.pins[record.sinks[read].0].cell;
        proof {
            assert(cells[read + 1] == cell);
            lemma_reach_grows(cells.take(read + 1), cell, placement, device, Axis::Column);
            lemma_reach_grows(cells.take(read + 1), cell, placement, device, Axis::Row);
            assert(cells.take(read + 2) =~= cells.take(read + 1).push(cell));
        }
        if let Some(point) = placement.point(cell, device) {
            if point.x < least.x {
                least = Point { x: point.x, y: least.y };
            }
            if point.x > greatest.x {
                greatest = Point { x: point.x, y: greatest.y };
            }
            if point.y < least.y {
                least = Point { x: least.x, y: point.y };
            }
            if point.y > greatest.y {
                greatest = Point { x: greatest.x, y: point.y };
            }
        }
        read = read + 1;
    }
    proof {
        assert(cells.take(read + 1) =~= cells);
        bounds_are_extremes(
            reach(cells, placement, device, Axis::Column),
            least.x,
            greatest.x,
        );
        bounds_are_extremes(reach(cells, placement, device, Axis::Row), least.y, greatest.y);
    }
    Some(DemandBox { least, greatest })
}

/// Boxes of the nets that demand routing, and how many nets are left out.
pub fn demand_boxes(design: &Design, device: &Device, placement: &Placement) -> (result:
    DemandBoxes)
    requires
        design.wf(),
    ensures
        result.boxes@ == boxes_upto(design, device, placement, design.nets@.len() as int),
        result.excluded_clock_nets == clocks_upto(design, design.nets@.len() as int),
{
    let mut boxes: Vec<DemandBox> = Vec::new();
    let mut clocks: usize = 0;
    let mut net: usize = 0;
    while net < design.nets.len()
        invariant
            net <= design.nets@.len(),
            design.wf(),
            boxes@ == boxes_upto(design, device, placement, net as int),
            clocks == clocks_upto(design, net as int),
            clocks <= net,
        decreases design.nets@.len() - net,
    {
        proof {
            lemma_endpoints(design, net as int);
            assert(design.nets@[net as int].driver.0 < design.pins@.len());
            assert(net_cells(design, net as int)[0].0 < design.cells@.len());
        }
        let driver = design.pins[design.nets[net].driver.0].cell;
        match design.cells[driver.0].kind {
            ResourceKind::Clock => {
                clocks = clocks + 1;
            },
            _ => {},
        }
        if let Some(found) = net_demand_box(design, device, placement, net) {
            boxes.push(found);
        }
        net = net + 1;
    }
    DemandBoxes { boxes, excluded_clock_nets: clocks }
}

/// Capacity of a run of tiles in one row.
pub open spec fn run_capacity(
    values: Seq<u32>,
    width: u32,
    row: int,
    from: int,
    to: int,
) -> int
    decreases to - from,
{
    if to <= from {
        0
    } else {
        run_capacity(values, width, row, from, to - 1) + values[row * width + to - 1]
    }
}

/// Capacity of a rectangle of tiles.
pub open spec fn rectangle_capacity(
    values: Seq<u32>,
    width: u32,
    from: Point,
    to: Point,
) -> int
    decreases to.y,
{
    if to.y <= from.y {
        0
    } else {
        rectangle_capacity(values, width, from, Point { x: to.x, y: (to.y - 1) as u32 })
            + run_capacity(values, width, to.y - 1, from.x as int, to.x as int)
    }
}

/// Capacities of a run are bounded.
proof fn lemma_run_bounded(values: Seq<u32>, width: u32, row: int, from: int, to: int)
    requires
        from <= to,
    ensures
        0 <= run_capacity(values, width, row, from, to) <= (to - from) * u32::MAX,
    decreases to - from,
{
    if from < to {
        lemma_run_bounded(values, width, row, from, to - 1);
        assert((to - from) * u32::MAX == (to - 1 - from) * u32::MAX + u32::MAX)
            by (nonlinear_arith);
    } else {
        assert((to - from) * u32::MAX == 0) by (nonlinear_arith)
            requires
                to == from,
        ;
    }
}

impl RoutingCapacityMap {
    /// Directional capacity of the tiles from one corner up to, and without,
    /// the other.
    pub fn bin_capacity(
        &self,
        from: Point,
        to: Point,
        orientation: RoutingChannelOrientation,
    ) -> (result: u64)
        requires
            self.wf(),
            from.x <= to.x <= self.width,
            from.y <= to.y <= self.height,
        ensures
            result == rectangle_capacity(self.values(orientation), self.width, from, to),
    {
        let values: &Vec<u32> = match orientation {
            RoutingChannelOrientation::Horizontal => &self.horizontal,
            RoutingChannelOrientation::Vertical => &self.vertical,
        };
        let mut total: u64 = 0;
        let mut y: u32 = from.y;
        proof {
            assert(0 * (to.x - from.x) == 0);
        }
        while y < to.y
            invariant
                from.y <= y <= to.y,
                self.wf(),
                from.x <= to.x <= self.width,
                to.y <= self.height,
                values@ == self.values(orientation),
                values@.len() == self.width * self.height,
                total == rectangle_capacity(
                    values@,
                    self.width,
                    from,
                    Point { x: to.x, y },
                ),
                total <= (y - from.y) * (to.x - from.x) * u32::MAX,
            decreases to.y - y,
        {
            let ghost before = total as int;
            let mut x: u32 = from.x;
            proof {
                lemma_run_bounded(values@, self.width, y as int, from.x as int, to.x as int);
                assert((y - from.y) * (to.x - from.x) * u32::MAX + (to.x - from.x) * u32::MAX
                    == (y + 1 - from.y) * (to.x - from.x) * u32::MAX) by (nonlinear_arith);
                assert((y + 1 - from.y) * (to.x - from.x) <= self.width * self.height)
                    by (nonlinear_arith)
                    requires
                        0 <= y + 1 - from.y <= self.height,
                        0 <= to.x - from.x <= self.width,
                ;
                assert((y + 1 - from.y) * (to.x - from.x) * u32::MAX <= u64::MAX)
                    by (nonlinear_arith)
                    requires
                        (y + 1 - from.y) * (to.x - from.x) <= u32::MAX,
                ;
            }
            while x < to.x
                invariant
                    from.x <= x <= to.x,
                    y < to.y,
                    from.y <= y,
                    to.y <= self.height,
                    self.wf(),
                    to.x <= self.width,
                    values@.len() == self.width * self.height,
                    total == before + run_capacity(
                        values@,
                        self.width,
                        y as int,
                        from.x as int,
                        x as int,
                    ),
                    0 <= before,
                    before + (to.x - from.x) * u32::MAX <= u64::MAX,
                decreases to.x - x,
            {
                proof {
                    assert(y * self.width + x < self.width * self.height) by (nonlinear_arith)
                        requires
                            x < self.width,
                            0 <= y <= self.height - 1,
                    ;
                    assert(0 <= y * self.width) by (nonlinear_arith);
                    lemma_run_bounded(values@, self.width, y as int, from.x as int, x + 1);
                    assert((x + 1 - from.x) * u32::MAX <= (to.x - from.x) * u32::MAX)
                        by (nonlinear_arith)
                        requires
                            x + 1 <= to.x,
                    ;
                }
                let index: usize = (y * self.width + x) as usize;
                total = total + values[index] as u64;
                x = x + 1;
            }
            proof {
                let next = Point { x: to.x, y: (y + 1) as u32 };
                assert(Point { x: next.x, y: (next.y - 1) as u32 } == Point { x: to.x, y });
            }
            y = y + 1;
        }
        total
    }
}

} // verus!
