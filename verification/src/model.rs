//! Logical design, physical device, and the graph that joins them.

use vstd::prelude::*;

use crate::ordered::OrderedKey;

verus! {

/// Logical cell.
#[derive(Clone, Copy, Debug, PartialEq, Eq, PartialOrd, Ord, Hash, Structural)]
pub struct CellId(pub usize);

impl OrderedKey for CellId {
    open spec fn rank(self) -> int {
        self.0 as int
    }

    proof fn rank_is_injective(a: Self, b: Self) {
    }

    fn precedes(self, other: Self) -> (result: bool) {
        self.0 < other.0
    }
}

/// Logical cell pin.
#[derive(Clone, Copy, Debug, PartialEq, Eq, PartialOrd, Ord, Hash, Structural)]
pub struct CellPinId(pub usize);

impl OrderedKey for CellPinId {
    open spec fn rank(self) -> int {
        self.0 as int
    }

    proof fn rank_is_injective(a: Self, b: Self) {
    }

    fn precedes(self, other: Self) -> (result: bool) {
        self.0 < other.0
    }
}

/// Logical net.
#[derive(Clone, Copy, Debug, PartialEq, Eq, PartialOrd, Ord, Hash, Structural)]
pub struct NetId(pub usize);

impl OrderedKey for NetId {
    open spec fn rank(self) -> int {
        self.0 as int
    }

    proof fn rank_is_injective(a: Self, b: Self) {
    }

    fn precedes(self, other: Self) -> (result: bool) {
        self.0 < other.0
    }
}

/// Physical basic element.
#[derive(Clone, Copy, Debug, PartialEq, Eq, PartialOrd, Ord, Hash, Structural)]
pub struct BelId(pub usize);

impl OrderedKey for BelId {
    open spec fn rank(self) -> int {
        self.0 as int
    }

    proof fn rank_is_injective(a: Self, b: Self) {
    }

    fn precedes(self, other: Self) -> (result: bool) {
        self.0 < other.0
    }
}

/// Physical pin of a basic element.
#[derive(Clone, Copy, Debug, PartialEq, Eq, PartialOrd, Ord, Hash, Structural)]
pub struct BelPinId(pub usize);

impl OrderedKey for BelPinId {
    open spec fn rank(self) -> int {
        self.0 as int
    }

    proof fn rank_is_injective(a: Self, b: Self) {
    }

    fn precedes(self, other: Self) -> (result: bool) {
        self.0 < other.0
    }
}

/// Physical wire.
#[derive(Clone, Copy, Debug, PartialEq, Eq, PartialOrd, Ord, Hash, Structural)]
pub struct WireId(pub usize);

impl OrderedKey for WireId {
    open spec fn rank(self) -> int {
        self.0 as int
    }

    proof fn rank_is_injective(a: Self, b: Self) {
    }

    fn precedes(self, other: Self) -> (result: bool) {
        self.0 < other.0
    }
}

/// Programmable connection between two wires.
#[derive(Clone, Copy, Debug, PartialEq, Eq, PartialOrd, Ord, Hash, Structural)]
pub struct PipId(pub usize);

impl OrderedKey for PipId {
    open spec fn rank(self) -> int {
        self.0 as int
    }

    proof fn rank_is_injective(a: Self, b: Self) {
    }

    fn precedes(self, other: Self) -> (result: bool) {
        self.0 < other.0
    }
}

impl OrderedKey for usize {
    open spec fn rank(self) -> int {
        self as int
    }

    proof fn rank_is_injective(a: Self, b: Self) {
    }

    fn precedes(self, other: Self) -> (result: bool) {
        self < other
    }
}

impl OrderedKey for u64 {
    open spec fn rank(self) -> int {
        self as int
    }

    proof fn rank_is_injective(a: Self, b: Self) {
    }

    fn precedes(self, other: Self) -> (result: bool) {
        self < other
    }
}

impl OrderedKey for u32 {
    open spec fn rank(self) -> int {
        self as int
    }

    proof fn rank_is_injective(a: Self, b: Self) {
    }

    fn precedes(self, other: Self) -> (result: bool) {
        self < other
    }
}

impl OrderedKey for i64 {
    open spec fn rank(self) -> int {
        self as int
    }

    proof fn rank_is_injective(a: Self, b: Self) {
    }

    fn precedes(self, other: Self) -> (result: bool) {
        self < other
    }
}

/// A net together with one of its sinks.
#[derive(Clone, Copy, Debug, PartialEq, Eq, PartialOrd, Ord, Hash, Structural)]
pub struct Connection {
    /// Routed net.
    pub net: NetId,
    /// One of its sinks.
    pub sink: CellPinId,
}

impl OrderedKey for Connection {
    open spec fn rank(self) -> int {
        self.net.0 * 0x1_0000_0000_0000_0000 + self.sink.0
    }

    proof fn rank_is_injective(a: Self, b: Self) {
    }

    fn precedes(self, other: Self) -> (result: bool) {
        self.net.0 < other.net.0 || (self.net.0 == other.net.0 && self.sink.0 < other.sink.0)
    }
}

/// A logical pin together with one BEL choice of its cell.
#[derive(Clone, Copy, Debug, PartialEq, Eq, PartialOrd, Ord, Hash, Structural)]
pub struct PinChoice {
    /// Logical pin.
    pub pin: CellPinId,
    /// BEL that holds the cell of the pin.
    pub bel: BelId,
}

impl OrderedKey for PinChoice {
    open spec fn rank(self) -> int {
        self.pin.0 * 0x1_0000_0000_0000_0000 + self.bel.0
    }

    proof fn rank_is_injective(a: Self, b: Self) {
    }

    fn precedes(self, other: Self) -> (result: bool) {
        self.pin.0 < other.pin.0 || (self.pin.0 == other.pin.0 && self.bel.0 < other.bel.0)
    }
}

/// One tile coordinate.
#[derive(Clone, Copy, Debug, PartialEq, Eq, PartialOrd, Ord, Hash, Structural)]
pub struct Point {
    /// Column.
    pub x: u32,
    /// Row.
    pub y: u32,
}

impl OrderedKey for Point {
    open spec fn rank(self) -> int {
        self.x * 0x1_0000_0000 + self.y
    }

    proof fn rank_is_injective(a: Self, b: Self) {
    }

    fn precedes(self, other: Self) -> (result: bool) {
        self.x < other.x || (self.x == other.x && self.y < other.y)
    }
}

/// Distance of two integers.
pub open spec fn gap(a: int, b: int) -> int {
    if a <= b {
        b - a
    } else {
        a - b
    }
}

/// Distance of two coordinates.
pub fn coordinate_gap(a: u32, b: u32) -> (result: u32)
    ensures
        result == gap(a as int, b as int),
{
    if a <= b {
        b - a
    } else {
        a - b
    }
}

impl Point {
    /// The point in column `x` and row `y`.
    pub fn new(x: u32, y: u32) -> (result: Self)
        ensures
            result.x == x,
            result.y == y,
    {
        Point { x, y }
    }

    /// Sum of the column distance and the row distance.
    pub open spec fn distance(self, other: Point) -> int {
        gap(self.x as int, other.x as int) + gap(self.y as int, other.y as int)
    }

    /// Sum of the column distance and the row distance.
    pub fn manhattan(self, other: Point) -> (result: u64)
        ensures
            result == self.distance(other),
    {
        coordinate_gap(self.x, other.x) as u64 + coordinate_gap(self.y, other.y) as u64
    }
}

/// Class of a cell and of the BELs that can hold it.
#[derive(Clone, Copy, Debug, PartialEq, Eq, PartialOrd, Ord, Hash, Structural)]
pub enum ResourceKind {
    /// Combinational logic.
    Logic,
    /// Clocked storage.
    Register,
    /// Block memory.
    Memory,
    /// Package input or output.
    Io,
    /// Clock distribution.
    Clock,
}

/// Signal direction of a pin.
#[derive(Clone, Copy, Debug, PartialEq, Eq, PartialOrd, Ord, Hash, Structural)]
pub enum PinDirection {
    /// The pin reads its net.
    Input,
    /// The pin drives its net.
    Output,
}

/// A malformed model request.
#[derive(Clone, Copy, Debug, PartialEq, Eq, Structural)]
pub enum ModelError {
    /// The cell is not in the design.
    UnknownCell(CellId),
    /// The pin is not in the design.
    UnknownCellPin(CellPinId),
    /// The pin already belongs to a net, or the request names it twice.
    ConnectedCellPin(CellPinId),
    /// The BEL is not in the device.
    UnknownBel(BelId),
    /// The wire is not in the device.
    UnknownWire(WireId),
    /// The device has no tile, or more tiles than can be indexed.
    InvalidExtent,
    /// The point lies outside the device.
    OutsideDevice(Point),
    /// No further resource of the class can be indexed.
    TooManyResources,
    /// The BEL has no physical pin for the logical pin.
    UnboundCellPin(CellPinId, BelId),
}

/// One logical cell.
#[derive(Clone, Debug, PartialEq, Eq)]
pub struct Cell {
    /// Unique display name.
    pub name: String,
    /// BEL class that can hold the cell.
    pub kind: ResourceKind,
    /// Pins of the cell, in order of creation.
    pub pins: Vec<CellPinId>,
}

/// One logical pin.
#[derive(Clone, Debug, PartialEq, Eq)]
pub struct CellPin {
    /// Owning cell.
    pub cell: CellId,
    /// Name within the cell.
    pub name: String,
    /// Signal direction.
    pub direction: PinDirection,
    /// Net that the pin belongs to.
    pub net: Option<NetId>,
}

/// One logical net.
#[derive(Clone, Debug, PartialEq, Eq)]
pub struct Net {
    /// Display name.
    pub name: String,
    /// Driving pin.
    pub driver: CellPinId,
    /// Driven pins, in order of creation.
    pub sinks: Vec<CellPinId>,
}

/// Arenas of the logical design.
#[derive(Clone, Debug, PartialEq, Eq)]
pub struct Design {
    /// Cells by [`CellId`].
    pub cells: Vec<Cell>,
    /// Pins by [`CellPinId`].
    pub pins: Vec<CellPin>,
    /// Nets by [`NetId`].
    pub nets: Vec<Net>,
}

/// Whether `pin` is the driver or a sink of `net`.
pub open spec fn on_net(net: Net, pin: CellPinId) -> bool {
    net.driver == pin || net.sinks@.contains(pin)
}

impl Design {
    /// Every cell lists pins of its own, and each pin is listed by its cell.
    pub open spec fn cells_wf(&self) -> bool {
        &&& forall|c: int, k: int|
            0 <= c < self.cells@.len() && 0 <= k < self.cells@[c].pins@.len() ==> {
                let pin = #[trigger] self.cells@[c].pins@[k];
                pin.0 < self.pins@.len() && self.pins@[pin.0 as int].cell.0 == c
            }
        &&& forall|p: int|
            0 <= p < self.pins@.len() ==> (#[trigger] self.pins@[p]).cell.0 < self.cells@.len()
                && self.cells@[self.pins@[p].cell.0 as int].pins@.contains(CellPinId(p as usize))
    }

    /// Every net names pins that name it back, each at most once.
    pub open spec fn nets_wf(&self) -> bool {
        &&& forall|n: int|
            0 <= n < self.nets@.len() ==> {
                let net = #[trigger] self.nets@[n];
                &&& net.driver.0 < self.pins@.len()
                &&& self.pins@[net.driver.0 as int].net == Some(NetId(n as usize))
                &&& net.sinks@.no_duplicates()
                &&& !net.sinks@.contains(net.driver)
            }
        &&& forall|n: int, k: int|
            0 <= n < self.nets@.len() && 0 <= k < self.nets@[n].sinks@.len() ==> {
                let pin = #[trigger] self.nets@[n].sinks@[k];
                &&& pin.0 < self.pins@.len()
                &&& self.pins@[pin.0 as int].net == Some(NetId(n as usize))
            }
        &&& forall|p: int|
            0 <= p < self.pins@.len() ==> match (#[trigger] self.pins@[p]).net {
                Some(net) => net.0 < self.nets@.len() && on_net(
                    self.nets@[net.0 as int],
                    CellPinId(p as usize),
                ),
                None => true,
            }
    }

    /// The arenas refer to each other consistently.
    pub open spec fn wf(&self) -> bool {
        self.cells_wf() && self.nets_wf()
    }

    /// The empty design.
    pub fn new() -> (result: Self)
        ensures
            result.wf(),
            result.cells@.len() == 0,
            result.pins@.len() == 0,
            result.nets@.len() == 0,
    {
        Design { cells: Vec::new(), pins: Vec::new(), nets: Vec::new() }
    }

    /// Cells by [`CellId`].
    pub fn cells(&self) -> (result: &Vec<Cell>)
        ensures
            *result == self.cells,
    {
        &self.cells
    }

    /// Pins by [`CellPinId`].
    pub fn pins(&self) -> (result: &Vec<CellPin>)
        ensures
            *result == self.pins,
    {
        &self.pins
    }

    /// Nets by [`NetId`].
    pub fn nets(&self) -> (result: &Vec<Net>)
        ensures
            *result == self.nets,
    {
        &self.nets
    }

    /// Adds a cell without pins.
    pub fn add_cell(&mut self, name: String, kind: ResourceKind) -> (id: CellId)
        requires
            old(self).wf(),
        ensures
            final(self).wf(),
            id.0 == old(self).cells@.len(),
            final(self).cells@ == old(self).cells@.push(final(self).cells@[id.0 as int]),
            final(self).cells@[id.0 as int].name == name,
            final(self).cells@[id.0 as int].kind == kind,
            final(self).cells@[id.0 as int].pins@.len() == 0,
            final(self).pins == old(self).pins,
            final(self).nets == old(self).nets,
    {
        let id = CellId(self.cells.len());
        self.cells.push(Cell { name, kind, pins: Vec::new() });
        proof {
            let before = *old(self);
            assert forall|p: int| 0 <= p < self.pins@.len() implies (
            #[trigger] self.pins@[p]).cell.0 < self.cells@.len()
                && self.cells@[self.pins@[p].cell.0 as int].pins@.contains(
                CellPinId(p as usize),
            ) by {
                assert(before.pins@[p].cell.0 < before.cells@.len());
                assert(self.cells@[self.pins@[p].cell.0 as int]
                    == before.cells@[before.pins@[p].cell.0 as int]);
            }
            assert forall|c: int, k: int|
                0 <= c < self.cells@.len() && 0 <= k < self.cells@[c].pins@.len() implies {
                let pin = #[trigger] self.cells@[c].pins@[k];
                pin.0 < self.pins@.len() && self.pins@[pin.0 as int].cell.0 == c
            } by {
                assert(self.cells@[c] == before.cells@[c]);
                let pin = before.cells@[c].pins@[k];
                assert(before.pins@[pin.0 as int].cell.0 == c);
            }
        }
        id
    }

    /// Adds an unconnected pin to a cell.
    pub fn add_pin(&mut self, cell: CellId, name: String, direction: PinDirection) -> (result:
        Result<CellPinId, ModelError>)
        requires
            old(self).wf(),
        ensures
            final(self).wf(),
            result is Ok <==> cell.0 < old(self).cells@.len(),
            result is Err ==> result == Err::<CellPinId, _>(ModelError::UnknownCell(cell))
                && *final(self) == *old(self),
            result matches Ok(id) ==> {
                &&& id.0 == old(self).pins@.len()
                &&& final(self).pins@ == old(self).pins@.push(
                    (CellPin { cell, name, direction, net: None }),
                )
                &&& final(self).nets == old(self).nets
                &&& final(self).cells@.len() == old(self).cells@.len()
                &&& final(self).cells@[cell.0 as int].pins@
                    == old(self).cells@[cell.0 as int].pins@.push(id)
                &&& final(self).cells@[cell.0 as int].name
                    == old(self).cells@[cell.0 as int].name
                &&& final(self).cells@[cell.0 as int].kind
                    == old(self).cells@[cell.0 as int].kind
                &&& forall|c: int|
                    0 <= c < old(self).cells@.len() && c != cell.0 ==> #[trigger] final(self).cells@[c] == old(self).cells@[c]
            },
    {
        if cell.0 >= self.cells.len() {
            return Err(ModelError::UnknownCell(cell));
        }
        let id = CellPinId(self.pins.len());
        self.pins.push(CellPin { cell, name, direction, net: None });
        self.cells[cell.0].pins.push(id);
        proof {
            let before = *old(self);
            let after = *self;
            assert forall|c: int, k: int|
                0 <= c < after.cells@.len() && 0 <= k < after.cells@[c].pins@.len() implies {
                let pin = #[trigger] after.cells@[c].pins@[k];
                pin.0 < after.pins@.len() && after.pins@[pin.0 as int].cell.0 == c
            } by {
                if c == cell.0 {
                    if k < before.cells@[c].pins@.len() {
                        let pin = before.cells@[c].pins@[k];
                        assert(before.pins@[pin.0 as int].cell.0 == c);
                    }
                } else {
                    let pin = before.cells@[c].pins@[k];
                    assert(before.pins@[pin.0 as int].cell.0 == c);
                }
            }
            assert(after.pins.len() == after.pins@.len());
            assert forall|p: int| 0 <= p < after.pins@.len() implies (
            #[trigger] after.pins@[p]).cell.0 < after.cells@.len()
                && after.cells@[after.pins@[p].cell.0 as int].pins@.contains(
                CellPinId(p as usize),
            ) by {
                let list = after.cells@[after.pins@[p].cell.0 as int].pins@;
                if p < before.pins@.len() {
                    assert(before.pins@[p] == after.pins@[p]);
                    let old_list = before.cells@[before.pins@[p].cell.0 as int].pins@;
                    assert(old_list.contains(CellPinId(p as usize)));
                    let k = old_list.index_of(CellPinId(p as usize));
                    assert(list[k] == CellPinId(p as usize));
                } else {
                    assert(list[list.len() - 1] == id);
                }
            }
        }
        Ok(id)
    }

    /// First pin that a new net over these pins cannot take.
    pub open spec fn net_defect(&self, driver: CellPinId, sinks: Seq<CellPinId>, count: int) -> Option<
        ModelError,
    >
        decreases count,
    {
        if count <= 0 {
            self.pin_defect(driver)
        } else if self.net_defect(driver, sinks, count - 1) is Some {
            self.net_defect(driver, sinks, count - 1)
        } else {
            let pin = sinks[count - 1];
            if self.pin_defect(pin) is Some {
                self.pin_defect(pin)
            } else if pin == driver || sinks.take(count - 1).contains(pin) {
                Some(ModelError::ConnectedCellPin(pin))
            } else {
                None
            }
        }
    }

    /// Why a pin cannot join a new net.
    pub open spec fn pin_defect(&self, pin: CellPinId) -> Option<ModelError> {
        if pin.0 >= self.pins@.len() {
            Some(ModelError::UnknownCellPin(pin))
        } else if self.pins@[pin.0 as int].net is Some {
            Some(ModelError::ConnectedCellPin(pin))
        } else {
            None
        }
    }

    /// Why a pin cannot join a new net.
    fn find_pin_defect(&self, pin: CellPinId) -> (result: Option<ModelError>)
        ensures
            result == self.pin_defect(pin),
    {
        if pin.0 >= self.pins.len() {
            Some(ModelError::UnknownCellPin(pin))
        } else if self.pins[pin.0].net.is_some() {
            Some(ModelError::ConnectedCellPin(pin))
        } else {
            None
        }
    }

    /// Connects a driver and its sinks by a new net.
    pub fn add_net(&mut self, name: String, driver: CellPinId, sinks: Vec<CellPinId>) -> (result:
        Result<NetId, ModelError>)
        requires
            old(self).wf(),
        ensures
            final(self).wf(),
            match old(self).net_defect(driver, sinks@, sinks@.len() as int) {
                Some(error) => result == Err::<NetId, _>(error) && *final(self) == *old(self),
                None => result == Ok::<_, ModelError>(NetId(old(self).nets@.len() as usize)),
            },
            result matches Ok(id) ==> {
                &&& final(self).nets@ == old(self).nets@.push((Net { name, driver, sinks }))
                &&& final(self).cells == old(self).cells
                &&& final(self).pins@.len() == old(self).pins@.len()
                &&& forall|p: int|
                    0 <= p < old(self).pins@.len() ==> {
                        let after = #[trigger] final(self).pins@[p];
                        let before = old(self).pins@[p];
                        &&& after.cell == before.cell
                        &&& after.name == before.name
                        &&& after.direction == before.direction
                        &&& after.net == if on_net(
                            (Net { name, driver, sinks }),
                            CellPinId(p as usize),
                        ) {
                            Some(id)
                        } else {
                            before.net
                        }
                    }
            },
    {
        if let Some(error) = self.find_pin_defect(driver) {
            proof {
                self.lemma_defect_persists(driver, sinks@, 0, sinks@.len() as int);
            }
            return Err(error);
        }
        let mut index: usize = 0;
        while index < sinks.len()
            invariant
                index <= sinks@.len(),
                *self == *old(self),
                self.wf(),
                self.net_defect(driver, sinks@, index as int) is None,
                forall|k: int| 0 <= k < index ==> self.pin_defect(#[trigger] sinks@[k]) is None,
                !sinks@.take(index as int).contains(driver),
                sinks@.take(index as int).no_duplicates(),
            decreases sinks@.len() - index,
        {
            let pin = sinks[index];
            if let Some(error) = self.find_pin_defect(pin) {
                proof {
                    self.lemma_defect_persists(driver, sinks@, index + 1, sinks@.len() as int);
                }
                return Err(error);
            }
            let mut repeated = pin == driver;
            let mut earlier: usize = 0;
            while earlier < index
                invariant
                    earlier <= index < sinks@.len(),
                    pin == sinks@[index as int],
                    repeated == (pin == driver || exists|k: int|
                        0 <= k < earlier && #[trigger] sinks@[k] == pin),
                decreases index - earlier,
            {
                if sinks[earlier] == pin {
                    repeated = true;
                }
                earlier = earlier + 1;
            }
            proof {
                let prefix = sinks@.take(index as int);
                if prefix.contains(pin) {
                    let k = choose|k: int| 0 <= k < prefix.len() && prefix[k] == pin;
                    assert(sinks@[k] == pin);
                }
                if exists|k: int| 0 <= k < earlier && #[trigger] sinks@[k] == pin {
                    let k = choose|k: int| 0 <= k < earlier && #[trigger] sinks@[k] == pin;
                    assert(prefix[k] == pin);
                }
            }
            if repeated {
                proof {
                    self.lemma_defect_persists(driver, sinks@, index + 1, sinks@.len() as int);
                }
                return Err(ModelError::ConnectedCellPin(pin));
            }
            proof {
                let prefix = sinks@.take(index as int);
                let longer = sinks@.take(index + 1);
                assert(longer =~= prefix.push(pin));
                assert forall|k: int| 0 <= k < longer.len() implies longer[k] != driver by {
                    if k < index {
                        assert(prefix[k] == longer[k]);
                        assert(prefix.contains(prefix[k]));
                    }
                }
                assert forall|a: int, b: int|
                    0 <= a < longer.len() && 0 <= b < longer.len() && a != b implies longer[a]
                    != longer[b] by {
                    if a < index && b < index {
                        assert(prefix[a] != prefix[b]);
                    } else if a < index {
                        assert(prefix.contains(prefix[a]));
                    } else {
                        assert(prefix.contains(prefix[b]));
                    }
                }
            }
            index = index + 1;
        }
        assert(sinks@.take(sinks@.len() as int) =~= sinks@);
        let id = NetId(self.nets.len());
        let ghost before = *self;
        self.pins[driver.0].net = Some(id);
        let mut index: usize = 0;
        while index < sinks.len()
            invariant
                index <= sinks@.len(),
                self.cells == before.cells,
                self.nets == before.nets,
                self.pins@.len() == before.pins@.len(),
                driver.0 < before.pins@.len(),
                forall|k: int| 0 <= k < sinks@.len() ==> before.pin_defect(#[trigger] sinks@[k]) is None,
                forall|p: int|
                    0 <= p < before.pins@.len() ==> {
                        let after = #[trigger] self.pins@[p];
                        &&& after.cell == before.pins@[p].cell
                        &&& after.name == before.pins@[p].name
                        &&& after.direction == before.pins@[p].direction
                        &&& after.net == if driver.0 == p || exists|k: int|
                            0 <= k < index && (#[trigger] sinks@[k]).0 == p {
                            Some(id)
                        } else {
                            before.pins@[p].net
                        }
                    },
            decreases sinks@.len() - index,
        {
            let pin = sinks[index];
            assert(before.pin_defect(sinks@[index as int]) is None);
            self.pins[pin.0].net = Some(id);
            index = index + 1;
        }
        let ghost net = Net { name, driver, sinks };
        self.nets.push(Net { name, driver, sinks });
        proof {
            let after = *self;
            assert forall|p: int| 0 <= p < before.pins@.len() implies (#[trigger] on_net(
                net,
                CellPinId(p as usize),
            ) <==> (driver.0 == p || exists|k: int|
                0 <= k < index && (#[trigger] sinks@[k]).0 == p)) by {
                assert(before.pins.len() == before.pins@.len());
                if on_net(net, CellPinId(p as usize)) && driver.0 != p {
                    let k = choose|k: int|
                        0 <= k < sinks@.len() && sinks@[k] == CellPinId(p as usize);
                    assert(sinks@[k].0 == p);
                }
            }
            assert forall|n: int| 0 <= n < after.nets@.len() implies {
                let net = #[trigger] after.nets@[n];
                &&& net.driver.0 < after.pins@.len()
                &&& after.pins@[net.driver.0 as int].net == Some(NetId(n as usize))
                &&& net.sinks@.no_duplicates()
                &&& !net.sinks@.contains(net.driver)
            } by {
                if n < before.nets@.len() {
                    let net = before.nets@[n];
                    assert(before.pins@[net.driver.0 as int].net is Some);
                    let q = net.driver.0 as int;
                    assert(after.pins@[q].cell == before.pins@[q].cell);
                    assert(before.pin_defect(net.driver) is Some);
                }
            }
            assert forall|n: int, k: int|
                0 <= n < after.nets@.len() && 0 <= k < after.nets@[n].sinks@.len() implies {
                let pin = #[trigger] after.nets@[n].sinks@[k];
                &&& pin.0 < after.pins@.len()
                &&& after.pins@[pin.0 as int].net == Some(NetId(n as usize))
            } by {
                if n < before.nets@.len() {
                    let pin = before.nets@[n].sinks@[k];
                    assert(before.pins@[pin.0 as int].net is Some);
                    assert(before.pin_defect(pin) is Some);
                    assert(after.pins@[pin.0 as int].cell == before.pins@[pin.0 as int].cell);
                } else {
                    let pin = sinks@[k];
                    assert(before.pin_defect(pin) is None);
                    assert(after.pins@[pin.0 as int].cell == before.pins@[pin.0 as int].cell);
                }
            }
            assert forall|p: int| 0 <= p < after.pins@.len() implies match (
            #[trigger] after.pins@[p]).net {
                Some(net) => net.0 < after.nets@.len() && on_net(
                    after.nets@[net.0 as int],
                    CellPinId(p as usize),
                ),
                None => true,
            } by {
                assert(after.pins@[p].cell == before.pins@[p].cell);
                assert(match before.pins@[p].net {
                    Some(net) => net.0 < before.nets@.len() && on_net(
                        before.nets@[net.0 as int],
                        CellPinId(p as usize),
                    ),
                    None => true,
                });
            }
            assert forall|c: int, k: int|
                0 <= c < after.cells@.len() && 0 <= k < after.cells@[c].pins@.len() implies {
                let pin = #[trigger] after.cells@[c].pins@[k];
                pin.0 < after.pins@.len() && after.pins@[pin.0 as int].cell.0 == c
            } by {
                let pin = before.cells@[c].pins@[k];
                assert(before.pins@[pin.0 as int].cell.0 == c);
            }
        }
        Ok(id)
    }

    /// The first defect of a prefix stays the first defect of the whole.
    proof fn lemma_defect_persists(
        &self,
        driver: CellPinId,
        sinks: Seq<CellPinId>,
        short: int,
        long: int,
    )
        requires
            0 <= short <= long,
            self.net_defect(driver, sinks, short) is Some,
        ensures
            self.net_defect(driver, sinks, long) == self.net_defect(driver, sinks, short),
        decreases long - short,
    {
        if short < long {
            self.lemma_defect_persists(driver, sinks, short, long - 1);
        }
    }
}

} // verus!
