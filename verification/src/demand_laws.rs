//! What channels hold, and what nets ask of them.

use vstd::prelude::*;

use crate::demand_boxes::{box_of, point_of, reach, reaches_to, DemandBox};
use crate::device::Device;
use crate::model::{CellId, Design, PipId, Point, ResourceKind};
use crate::net_span::{net_cells, Axis};
use crate::placement::Placement;
use crate::routing_constraints::RoutingConstraints;
use crate::routing_demand::{
    are_capacities, channel_sum, is_usable_wire, local_name, orientation_of, tile_index,
    RoutingChannelOrientation,
};

verus! {

/// Behind its last slash the name begins with the letter and two decimal digits.
pub open spec fn is_channel_name(name: Seq<char>, letter: char) -> bool {
    exists|start: int|
        {
            &&& 0 <= start
            &&& start + 3 <= name.len()
            &&& start > 0 ==> name[start - 1] == '/'
            &&& forall|i: int| start <= i < name.len() ==> #[trigger] name[i] != '/'
            &&& #[trigger] name[start] == letter
            &&& '0' <= name[start + 1] && name[start + 1] <= '9'
            &&& '0' <= name[start + 2] && name[start + 2] <= '9'
        }
}

/// A wire belongs to a horizontal channel exactly where its local name begins with H and
/// two digits, and to a vertical one where it begins with V and two digits.
pub proof fn the_name_tells_the_channel(name: Seq<char>)
    ensures
        orientation_of(name) == Some(RoutingChannelOrientation::Horizontal) <==> is_channel_name(
            name,
            'H',
        ),
        orientation_of(name) == Some(RoutingChannelOrientation::Vertical) <==> is_channel_name(
            name,
            'V',
        ),
{
    let start = lemma_local_start(name);
    let local = local_name(name);
    assert forall|letter: char| #[trigger] is_channel_name(name, letter) implies local.len() >= 3
        && local[0] == letter && crate::routing_demand::is_digit(local[1])
        && crate::routing_demand::is_digit(local[2]) by {
        let other = choose|start: int|
            {
                &&& 0 <= start
                &&& start + 3 <= name.len()
                &&& start > 0 ==> name[start - 1] == '/'
                &&& forall|i: int| start <= i < name.len() ==> #[trigger] name[i] != '/'
                &&& #[trigger] name[start] == letter
                &&& '0' <= name[start + 1] && name[start + 1] <= '9'
                &&& '0' <= name[start + 2] && name[start + 2] <= '9'
            };
        crate::routing_demand::lemma_local_name(name, other);
    }
    if local.len() >= 3 && crate::routing_demand::is_digit(local[1])
        && crate::routing_demand::is_digit(local[2]) {
        assert(name[start] == local[0]);
        assert(name[start + 1] == local[1]);
        assert(name[start + 2] == local[2]);
        assert(is_channel_name(name, local[0]));
    }
}

/// Where the local name begins.
proof fn lemma_local_start(name: Seq<char>) -> (start: int)
    ensures
        0 <= start <= name.len(),
        start > 0 ==> name[start - 1] == '/',
        forall|i: int| start <= i < name.len() ==> #[trigger] name[i] != '/',
        local_name(name) == name.skip(start),
    decreases name.len(),
{
    if name.len() == 0 || name.last() == '/' {
        let start = name.len() as int;
        crate::routing_demand::lemma_local_name(name, start);
        start
    } else {
        let start = lemma_local_start(name.drop_last());
        assert forall|i: int| start <= i < name.len() implies #[trigger] name[i] != '/' by {
            if i < name.len() - 1 {
                assert(name.drop_last()[i] == name[i]);
            }
        }
        if start > 0 {
            assert(name.drop_last()[start - 1] == name[start - 1]);
        }
        crate::routing_demand::lemma_local_name(name, start);
        start
    }
}

/// A wire counts in a channel by its tile, its name, and a PIP of its own that is not
/// forbidden.
pub open spec fn counts_in(
    device: &Device,
    constraints: &RoutingConstraints,
    letter: char,
    point: Point,
    wire: int,
) -> bool {
    &&& 0 <= wire < device.wires@.len()
    &&& device.wires@[wire].point == point
    &&& is_channel_name(device.wires@[wire].name@, letter)
    &&& exists|p: int|
        0 <= p < device.pips@.len() && !constraints.blocked_pips@.contains(PipId(p as usize)) && ((
        #[trigger] device.pips@[p]).from.0 == wire || device.pips@[p].to.0 == wire)
}

/// Capacity of the wires that count in a channel, among the first ones.
pub open spec fn counted_capacity(
    device: &Device,
    constraints: &RoutingConstraints,
    letter: char,
    point: Point,
    count: int,
) -> int
    decreases count,
{
    if count <= 0 {
        0
    } else {
        counted_capacity(device, constraints, letter, point, count - 1) + if counts_in(
            device,
            constraints,
            letter,
            point,
            count - 1,
        ) {
            device.wires@[count - 1].capacity as int
        } else {
            0
        }
    }
}

/// Two tiles of a grid with one number are one tile.
proof fn lemma_one_tile(width: u32, a: Point, b: Point)
    requires
        a.x < width,
        b.x < width,
        tile_index(width, a) == tile_index(width, b),
    ensures
        a == b,
{
    if a.y < b.y {
        assert(b.y * width >= a.y * width + width) by (nonlinear_arith)
            requires
                b.y >= a.y + 1,
                width >= 0,
        ;
    }
    if b.y < a.y {
        assert(a.y * width >= b.y * width + width) by (nonlinear_arith)
            requires
                a.y >= b.y + 1,
                width >= 0,
        ;
    }
}

/// The letter that names a channel.
pub open spec fn letter_of(orientation: RoutingChannelOrientation) -> char {
    match orientation {
        RoutingChannelOrientation::Horizontal => 'H',
        RoutingChannelOrientation::Vertical => 'V',
    }
}

/// A wire counts where the sum takes it in.
proof fn lemma_wire_counts(
    device: &Device,
    constraints: &RoutingConstraints,
    orientation: RoutingChannelOrientation,
    point: Point,
    wire: int,
)
    requires
        device.wf(),
        point.x < device.width,
        0 <= wire < device.wires@.len(),
    ensures
        (is_usable_wire(device, constraints, wire, device.pips@.len() as int) && orientation_of(
            device.wires@[wire].name@,
        ) == Some(orientation) && tile_index(device.width, device.wires@[wire].point)
            == tile_index(device.width, point)) == counts_in(
            device,
            constraints,
            letter_of(orientation),
            point,
            wire,
        ),
{
    let here = device.wires@[wire].point;
    assert(device.holds(here));
    the_name_tells_the_channel(device.wires@[wire].name@);
    if tile_index(device.width, here) == tile_index(device.width, point) {
        lemma_one_tile(device.width, here, point);
    }
}

/// The channel sums are the capacities of the wires that count.
proof fn lemma_channel_counts(
    device: &Device,
    constraints: &RoutingConstraints,
    orientation: RoutingChannelOrientation,
    point: Point,
    count: int,
)
    requires
        device.wf(),
        point.x < device.width,
        0 <= count <= device.wires@.len(),
    ensures
        channel_sum(device, constraints, orientation, tile_index(device.width, point), count)
            == counted_capacity(
            device,
            constraints,
            letter_of(orientation),
            point,
            count,
        ),
    decreases count,
{
    if count > 0 {
        lemma_channel_counts(device, constraints, orientation, point, count - 1);
        lemma_wire_counts(device, constraints, orientation, point, count - 1);
    }
}

/// The capacity that the map gives a tile of the device is that of the wires on the tile
/// that are named after the channel and that a PIP which is not forbidden enters or
/// leaves.
pub proof fn a_channel_holds_its_usable_wires(
    device: &Device,
    constraints: &RoutingConstraints,
    orientation: RoutingChannelOrientation,
    values: Seq<u32>,
    point: Point,
)
    requires
        device.wf(),
        point.x < device.width,
        are_capacities(device, constraints, orientation, device.wires@.len() as int, values),
        0 <= tile_index(device.width, point) < values.len(),
    ensures
        ({
            let capacity = counted_capacity(
                device,
                constraints,
                letter_of(orientation),
                point,
                device.wires@.len() as int,
            );
            values[tile_index(device.width, point)] == if capacity > u32::MAX {
                u32::MAX as int
            } else {
                capacity
            }
        }),
{
    lemma_channel_counts(device, constraints, orientation, point, device.wires@.len() as int);
    assert(values[tile_index(device.width, point)] == values[tile_index(device.width, point)]);
}

/// The box of a net that no clock drives and whose driver is placed holds the driver and
/// every placed sink, and each of its sides touches one of them.
pub proof fn a_box_is_as_small_as_its_net(
    design: &Design,
    device: &Device,
    placement: &Placement,
    net: int,
    found: DemandBox,
)
    requires
        box_of(design, device, placement, net) == Some(found),
    ensures
        design.cells@[design.pins@[design.nets@[net].driver.0 as int].cell.0 as int].kind
            != ResourceKind::Clock,
        forall|k: int|
            0 <= k < net_cells(design, net).len() ==> (point_of(
                placement,
                device,
                #[trigger] net_cells(design, net)[k],
            ) matches Some(point) ==> found.least.x <= point.x <= found.greatest.x && found.least.y
                <= point.y <= found.greatest.y),
        reaches_to(net_cells(design, net), placement, device, Axis::Column, found.least.x),
        reaches_to(net_cells(design, net), placement, device, Axis::Column, found.greatest.x),
        reaches_to(net_cells(design, net), placement, device, Axis::Row, found.least.y),
        reaches_to(net_cells(design, net), placement, device, Axis::Row, found.greatest.y),
{
    let cells = net_cells(design, net);
    let driver = crate::net_span::driver_cell(design, net);
    assert(cells[0] == driver);
    let start = point_of(placement, device, driver)->0;
    let columns = reach(cells, placement, device, Axis::Column);
    let rows = reach(cells, placement, device, Axis::Row);
    lemma_reached(cells, placement, device, Axis::Column, 0, start);
    lemma_reached(cells, placement, device, Axis::Row, 0, start);
    lemma_extremes(columns, start.x);
    lemma_extremes(rows, start.y);
    assert(columns.contains(found.least.x) && columns.contains(found.greatest.x));
    assert(rows.contains(found.least.y) && rows.contains(found.greatest.y));
    assert forall|k: int| 0 <= k < cells.len() implies (point_of(
        placement,
        device,
        #[trigger] cells[k],
    ) matches Some(point) ==> found.least.x <= point.x <= found.greatest.x && found.least.y
        <= point.y <= found.greatest.y) by {
        if let Some(point) = point_of(placement, device, cells[k]) {
            lemma_reached(cells, placement, device, Axis::Column, k, point);
            lemma_reached(cells, placement, device, Axis::Row, k, point);
        }
    }
}

/// A placed cell reaches its own coordinates.
proof fn lemma_reached(
    cells: Seq<CellId>,
    placement: &Placement,
    device: &Device,
    axis: Axis,
    k: int,
    point: Point,
)
    requires
        0 <= k < cells.len(),
        point_of(placement, device, cells[k]) == Some(point),
    ensures
        reach(cells, placement, device, axis).contains(crate::net_span::along(point, axis)),
{
    assert(reaches_to(cells, placement, device, axis, crate::net_span::along(point, axis)));
}

/// The extremes of a set belong to it and bound it.
proof fn lemma_extremes(set: Set<u32>, some: u32)
    requires
        set.contains(some),
    ensures
        set.contains(crate::bbox::lowest(set)),
        set.contains(crate::bbox::highest(set)),
        forall|c: u32| #[trigger]
            set.contains(c) ==> crate::bbox::lowest(set) <= c <= crate::bbox::highest(set),
{
    crate::detail_costs::lemma_has_lowest(set, some);
    crate::detail_costs::lemma_has_highest(set, some);
}

} // verus!
