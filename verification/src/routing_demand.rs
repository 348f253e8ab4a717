//! Architecture-capacity maps and the boxes that demand is spread over.

use vstd::prelude::*;
use vstd::string::*;

use crate::cost::clip_u32;
use crate::device::Device;
use crate::model::{PipId, Point};
use crate::net_span::along;
use crate::routing_constraints::RoutingConstraints;

verus! {

/// General routing-channel direction.
#[derive(Clone, Copy, Debug, PartialEq, Eq, Structural)]
pub enum RoutingChannelOrientation {
    /// General horizontal `H##` resources.
    Horizontal,
    /// General vertical `V##` resources.
    Vertical,
}

/// Usable general-channel capacity on the device tile grid.
///
/// Every `H##` or `V##` wire is counted at the representative point supplied
/// by [`Device`], weighted by its sharing capacity. A wire is usable only when
/// at least one incident PIP remains after target routing restrictions.
#[derive(Clone, Debug, PartialEq, Eq)]
pub struct RoutingCapacityMap {
    /// Device-grid width.
    pub width: u32,
    /// Device-grid height.
    pub height: u32,
    /// Horizontal capacity of each tile, row by row.
    pub horizontal: Vec<u32>,
    /// Vertical capacity of each tile, row by row.
    pub vertical: Vec<u32>,
}

/// Number of a tile, row by row.
pub open spec fn tile_index(width: u32, point: Point) -> int {
    point.y * width + point.x
}

/// Tiles of a grid have numbers of their own below its area.
proof fn lemma_tile_index(width: u32, height: u32, point: Point)
    requires
        point.x < width,
        point.y < height,
    ensures
        0 <= tile_index(width, point) < width * height,
{
    assert(point.y * width + point.x < width * height) by (nonlinear_arith)
        requires
            point.x < width,
            point.y <= height - 1,
            0 <= point.y,
    ;
    assert(0 <= point.y * width) by (nonlinear_arith)
        requires
            0 <= point.y,
            0 <= width,
    ;
}

/// Sum of the numbers.
pub open spec fn sum_of(values: Seq<u32>) -> int
    decreases values.len(),
{
    if values.len() == 0 {
        0
    } else {
        sum_of(values.drop_last()) + values.last()
    }
}

/// The first numbers sum up to a bounded number.
proof fn lemma_sum_bounded(values: Seq<u32>)
    ensures
        0 <= sum_of(values) <= values.len() * u32::MAX,
    decreases values.len(),
{
    if values.len() > 0 {
        lemma_sum_bounded(values.drop_last());
        assert(values.len() * u32::MAX == values.drop_last().len() * u32::MAX + u32::MAX)
            by (nonlinear_arith)
            requires
                values.len() == values.drop_last().len() + 1,
        ;
    }
}

impl RoutingCapacityMap {
    /// There is a number for every tile.
    pub open spec fn wf(&self) -> bool {
        &&& self.width * self.height <= u32::MAX
        &&& self.horizontal@.len() == self.width * self.height
        &&& self.vertical@.len() == self.width * self.height
    }

    /// Capacities of one direction.
    pub open spec fn values(&self, orientation: RoutingChannelOrientation) -> Seq<u32> {
        match orientation {
            RoutingChannelOrientation::Horizontal => self.horizontal@,
            RoutingChannelOrientation::Vertical => self.vertical@,
        }
    }

    /// Device-grid width.
    pub fn width(&self) -> (result: u32)
        ensures
            result == self.width,
    {
        self.width
    }

    /// Device-grid height.
    pub fn height(&self) -> (result: u32)
        ensures
            result == self.height,
    {
        self.height
    }

    /// Number of a tile, row by row.
    pub fn index(&self, point: Point) -> (result: Option<usize>)
        requires
            self.wf(),
        ensures
            match result {
                Some(index) => point.x < self.width && point.y < self.height && index
                    == tile_index(self.width, point),
                None => point.x >= self.width || point.y >= self.height,
            },
    {
        if point.x < self.width && point.y < self.height {
            proof {
                lemma_tile_index(self.width, self.height, point);
                assert(0 <= point.y * self.width <= u32::MAX);
            }
            Some((point.y * self.width + point.x) as usize)
        } else {
            None
        }
    }

    /// Directional capacity at one tile.
    pub fn capacity(&self, point: Point, orientation: RoutingChannelOrientation) -> (result: Option<
        u32,
    >)
        requires
            self.wf(),
        ensures
            result == if point.x < self.width && point.y < self.height {
                Some(self.values(orientation)[tile_index(self.width, point)])
            } else {
                None
            },
    {
        match self.index(point) {
            Some(index) => {
                proof {
                    lemma_tile_index(self.width, self.height, point);
                }
                match orientation {
                    RoutingChannelOrientation::Horizontal => Some(self.horizontal[index]),
                    RoutingChannelOrientation::Vertical => Some(self.vertical[index]),
                }
            },
            None => None,
        }
    }

    /// Total directional capacity across the device.
    pub fn total_capacity(&self, orientation: RoutingChannelOrientation) -> (result: u64)
        requires
            self.wf(),
        ensures
            result == sum_of(self.values(orientation)),
    {
        let values: &Vec<u32> = match orientation {
            RoutingChannelOrientation::Horizontal => &self.horizontal,
            RoutingChannelOrientation::Vertical => &self.vertical,
        };
        let mut total: u64 = 0;
        let mut index: usize = 0;
        while index < values.len()
            invariant
                index <= values@.len(),
                values@.len() <= u32::MAX,
                total == sum_of(values@.take(index as int)),
            decreases values@.len() - index,
        {
            proof {
                let more = values@.take(index + 1);
                assert(more.drop_last() =~= values@.take(index as int));
                lemma_sum_bounded(more);
                assert(more.len() * u32::MAX <= u64::MAX) by (nonlinear_arith)
                    requires
                        more.len() <= u32::MAX,
                ;
            }
            total = total + values[index] as u64;
            index = index + 1;
        }
        assert(values@.take(index as int) =~= values@);
        total
    }
}

/// The part of a name after its last slash.
pub open spec fn local_name(name: Seq<char>) -> Seq<char>
    decreases name.len(),
{
    if name.len() == 0 || name.last() == '/' {
        Seq::empty()
    } else {
        local_name(name.drop_last()).push(name.last())
    }
}

/// The character is a decimal digit.
pub open spec fn is_digit(c: char) -> bool {
    '0' <= c && c <= '9'
}

/// Direction of the channel that a wire belongs to, by its name.
pub open spec fn orientation_of(name: Seq<char>) -> Option<RoutingChannelOrientation> {
    let local = local_name(name);
    if local.len() < 3 || !is_digit(local[1]) || !is_digit(local[2]) {
        None
    } else if local[0] == 'H' {
        Some(RoutingChannelOrientation::Horizontal)
    } else if local[0] == 'V' {
        Some(RoutingChannelOrientation::Vertical)
    } else {
        None
    }
}

/// The local name is a suffix that starts behind the last slash.
pub(crate) proof fn lemma_local_name(name: Seq<char>, start: int)
    requires
        0 <= start <= name.len(),
        start > 0 ==> name[start - 1] == '/',
        forall|i: int| start <= i < name.len() ==> #[trigger] name[i] != '/',
    ensures
        local_name(name) == name.skip(start),
    decreases name.len(),
{
    if start < name.len() {
        assert(name[name.len() - 1] != '/');
        let rest = name.drop_last();
        lemma_local_name(rest, start);
        assert(name.skip(start) =~= rest.skip(start).push(name.last()));
    } else {
        assert(name.skip(start) =~= Seq::<char>::empty());
    }
}

/// Direction of the channel that a wire belongs to, by its name.
pub fn channel_orientation(name: &str) -> (result: Option<RoutingChannelOrientation>)
    ensures
        result == orientation_of(name@),
{
    let count: usize = name.unicode_len();
    let mut start: usize = count;
    while start > 0 && name.get_char(start - 1) != '/'
        invariant
            start <= count,
            count == name@.len(),
            forall|i: int| start <= i < name@.len() ==> #[trigger] name@[i] != '/',
        decreases start,
    {
        start = start - 1;
    }
    proof {
        lemma_local_name(name@, start as int);
    }
    if count - start < 3 {
        return None;
    }
    let first: char = name.get_char(start);
    let second: char = name.get_char(start + 1);
    let third: char = name.get_char(start + 2);
    proof {
        assert(local_name(name@)[0] == first);
        assert(local_name(name@)[1] == second);
        assert(local_name(name@)[2] == third);
    }
    if !('0' <= second && second <= '9') || !('0' <= third && third <= '9') {
        return None;
    }
    if first == 'H' {
        Some(RoutingChannelOrientation::Horizontal)
    } else if first == 'V' {
        Some(RoutingChannelOrientation::Vertical)
    } else {
        None
    }
}

/// A PIP that is not blocked ends at the wire.
pub open spec fn is_usable_wire(
    device: &Device,
    constraints: &RoutingConstraints,
    wire: int,
    count: int,
) -> bool {
    exists|p: int|
        0 <= p < count && !constraints.blocked_pips@.contains(PipId(p as usize)) && ((
        #[trigger] device.pips@[p]).from.0 == wire || device.pips@[p].to.0 == wire)
}

/// Capacity of the usable wires of a channel at a tile, among the first wires.
pub open spec fn channel_sum(
    device: &Device,
    constraints: &RoutingConstraints,
    orientation: RoutingChannelOrientation,
    tile: int,
    count: int,
) -> int
    decreases count,
{
    if count <= 0 {
        0
    } else {
        let wire = device.wires@[count - 1];
        channel_sum(device, constraints, orientation, tile, count - 1) + if is_usable_wire(
            device,
            constraints,
            count - 1,
            device.pips@.len() as int,
        ) && orientation_of(wire.name@) == Some(orientation) && tile_index(
            device.width,
            wire.point,
        ) == tile {
            wire.capacity as int
        } else {
            0
        }
    }
}

/// The numbers are the capacities of the channels among the first wires.
pub open spec fn are_capacities(
    device: &Device,
    constraints: &RoutingConstraints,
    orientation: RoutingChannelOrientation,
    count: int,
    values: Seq<u32>,
) -> bool {
    forall|t: int|
        0 <= t < values.len() ==> #[trigger] values[t] == clip_u32(
            channel_sum(device, constraints, orientation, t, count),
        )
}

/// Sums of capacities are not negative.
proof fn lemma_channel_sum(
    device: &Device,
    constraints: &RoutingConstraints,
    orientation: RoutingChannelOrientation,
    tile: int,
    count: int,
)
    ensures
        channel_sum(device, constraints, orientation, tile, count) >= 0,
    decreases count,
{
    if count > 0 {
        lemma_channel_sum(device, constraints, orientation, tile, count - 1);
    }
}

/// Marks the wires at which a PIP ends that is not blocked.
fn usable_wires(device: &Device, constraints: &RoutingConstraints) -> (result: Vec<bool>)
    requires
        device.wf(),
        constraints.wf(),
    ensures
        result@.len() == device.wires@.len(),
        forall|w: int|
            0 <= w < result@.len() ==> #[trigger] result@[w] == is_usable_wire(
                device,
                constraints,
                w,
                device.pips@.len() as int,
            ),
{
    let mut usable: Vec<bool> = Vec::new();
    let mut wire: usize = 0;
    while wire < device.wires.len()
        invariant
            wire <= device.wires@.len(),
            usable@.len() == wire,
            forall|w: int| 0 <= w < wire ==> !#[trigger] usable@[w],
        decreases device.wires@.len() - wire,
    {
        usable.push(false);
        wire = wire + 1;
    }
    let mut index: usize = 0;
    while index < device.pips.len()
        invariant
            index <= device.pips@.len(),
            device.wf(),
            constraints.wf(),
            usable@.len() == device.wires@.len(),
            forall|w: int|
                0 <= w < usable@.len() ==> #[trigger] usable@[w] == is_usable_wire(
                    device,
                    constraints,
                    w,
                    index as int,
                ),
        decreases device.pips@.len() - index,
    {
        let pip = device.pips[index];
        let ghost before = usable@;
        assert(device.pips@[index as int].from.0 < device.wires@.len());
        let open = !constraints.blocked_pips.contains(PipId(index));
        if open {
            usable.set(pip.from.0, true);
            usable.set(pip.to.0, true);
        }
        proof {
            assert forall|w: int| 0 <= w < usable@.len() implies #[trigger] usable@[w]
                == is_usable_wire(device, constraints, w, index + 1) by {
                assert(before[w] == is_usable_wire(device, constraints, w, index as int));
                if is_usable_wire(device, constraints, w, index as int) {
                    let p = choose|p: int|
                        0 <= p < index && !constraints.blocked_pips@.contains(PipId(p as usize))
                            && ((#[trigger] device.pips@[p]).from.0 == w || device.pips@[p].to.0
                            == w);
                    assert(device.pips@[p].from.0 == w || device.pips@[p].to.0 == w);
                }
                if is_usable_wire(device, constraints, w, index + 1) {
                    let p = choose|p: int|
                        0 <= p < index + 1 && !constraints.blocked_pips@.contains(
                            PipId(p as usize),
                        ) && ((#[trigger] device.pips@[p]).from.0 == w || device.pips@[p].to.0
                            == w);
                    if p < index {
                        assert(is_usable_wire(device, constraints, w, index as int));
                    }
                }
                if open && (pip.from.0 == w || pip.to.0 == w) {
                    assert(device.pips@[index as int].from.0 == w
                        || device.pips@[index as int].to.0 == w);
                }
            }
        }
        index = index + 1;
    }
    usable
}

/// Adds a wire's capacity to its tile.
fn deposit(
    values: &mut Vec<u32>,
    tile: usize,
    capacity: u16,
    enters: bool,
    Ghost(device): Ghost<&Device>,
    Ghost(constraints): Ghost<&RoutingConstraints>,
    Ghost(orientation): Ghost<RoutingChannelOrientation>,
    Ghost(wire): Ghost<int>,
)
    requires
        0 <= wire < device.wires@.len(),
        tile < old(values)@.len(),
        tile == tile_index(device.width, device.wires@[wire].point),
        capacity == device.wires@[wire].capacity,
        enters == (is_usable_wire(device, constraints, wire, device.pips@.len() as int)
            && orientation_of(device.wires@[wire].name@) == Some(orientation)),
        are_capacities(device, constraints, orientation, wire, old(values)@),
    ensures
        final(values)@.len() == old(values)@.len(),
        are_capacities(device, constraints, orientation, wire + 1, final(values)@),
{
    let ghost before = values@;
    if enters {
        let known: u32 = values[tile];
        values.set(tile, known.saturating_add(capacity as u32));
    }
    proof {
        assert forall|t: int| 0 <= t < values@.len() implies #[trigger] values@[t] == clip_u32(
            channel_sum(device, constraints, orientation, t, wire + 1),
        ) by {
            assert(before[t] == clip_u32(
                channel_sum(device, constraints, orientation, t, wire),
            ));
            lemma_channel_sum(device, constraints, orientation, t, wire);
        }
    }
}

/// Builds the reusable architecture-capacity map after routing restrictions.
pub fn routing_capacity_map(device: &Device, constraints: &RoutingConstraints) -> (result:
    RoutingCapacityMap)
    requires
        device.wf(),
        constraints.wf(),
    ensures
        result.wf(),
        result.width == device.width,
        result.height == device.height,
        are_capacities(
            device,
            constraints,
            RoutingChannelOrientation::Horizontal,
            device.wires@.len() as int,
            result.horizontal@,
        ),
        are_capacities(
            device,
            constraints,
            RoutingChannelOrientation::Vertical,
            device.wires@.len() as int,
            result.vertical@,
        ),
{
    assert(0 <= device.width * device.height) by (nonlinear_arith);
    let tile_count: usize = (device.width * device.height) as usize;
    let mut horizontal: Vec<u32> = Vec::new();
    let mut vertical: Vec<u32> = Vec::new();
    let mut tile: usize = 0;
    while tile < tile_count
        invariant
            tile <= tile_count,
            horizontal@.len() == tile,
            vertical@.len() == tile,
            forall|t: int| 0 <= t < tile ==> #[trigger] horizontal@[t] == 0,
            forall|t: int| 0 <= t < tile ==> #[trigger] vertical@[t] == 0,
        decreases tile_count - tile,
    {
        horizontal.push(0);
        vertical.push(0);
        tile = tile + 1;
    }
    let usable = usable_wires(device, constraints);
    let mut index: usize = 0;
    while index < device.wires.len()
        invariant
            index <= device.wires@.len(),
            device.wf(),
            tile_count == device.width * device.height,
            horizontal@.len() == tile_count,
            vertical@.len() == tile_count,
            usable@.len() == device.wires@.len(),
            forall|w: int|
                0 <= w < usable@.len() ==> #[trigger] usable@[w] == is_usable_wire(
                    device,
                    constraints,
                    w,
                    device.pips@.len() as int,
                ),
            are_capacities(
                device,
                constraints,
                RoutingChannelOrientation::Horizontal,
                index as int,
                horizontal@,
            ),
            are_capacities(
                device,
                constraints,
                RoutingChannelOrientation::Vertical,
                index as int,
                vertical@,
            ),
        decreases device.wires@.len() - index,
    {
        let wire = &device.wires[index];
        proof {
            assert(device.holds(device.wires@[index as int].point));
            lemma_tile_index(device.width, device.height, wire.point);
            assert(0 <= wire.point.y * device.width <= u32::MAX) by (nonlinear_arith)
                requires
                    0 <= wire.point.y,
                    wire.point.y < device.height,
                    0 < device.width,
                    device.width * device.height <= u32::MAX,
            ;
        }
        let at: usize = (wire.point.y * device.width + wire.point.x) as usize;
        let orientation: Option<RoutingChannelOrientation> = if usable[index] {
            channel_orientation(wire.name.as_str())
        } else {
            None
        };
        let across = match orientation {
            Some(RoutingChannelOrientation::Horizontal) => true,
            _ => false,
        };
        let along = match orientation {
            Some(RoutingChannelOrientation::Vertical) => true,
            _ => false,
        };
        deposit(
            &mut horizontal,
            at,
            wire.capacity,
            across,
            Ghost(device),
            Ghost(constraints),
            Ghost(RoutingChannelOrientation::Horizontal),
            Ghost(index as int),
        );
        deposit(
            &mut vertical,
            at,
            wire.capacity,
            along,
            Ghost(device),
            Ghost(constraints),
            Ghost(RoutingChannelOrientation::Vertical),
            Ghost(index as int),
        );
        index = index + 1;
    }
    RoutingCapacityMap { width: device.width, height: device.height, horizontal, vertical }
}

} // verus!
