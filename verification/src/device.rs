//! Physical device: basic elements, wires, and programmable connections.

use vstd::prelude::*;

use crate::model::{
    BelId, BelPinId, CellPinId, Design, ModelError, PinDirection, PipId, Point, ResourceKind,
    WireId,
};

verus! {

/// One basic element.
#[derive(Clone, Debug, PartialEq, Eq)]
pub struct Bel {
    /// Display name.
    pub name: String,
    /// Class of cells that the BEL can hold.
    pub kind: ResourceKind,
    /// Tile of the BEL.
    pub point: Point,
    /// Pins of the BEL, in order of creation.
    pub pins: Vec<BelPinId>,
}

/// One pin of a basic element.
#[derive(Clone, Debug, PartialEq, Eq)]
pub struct BelPin {
    /// Owning BEL.
    pub bel: BelId,
    /// Name within the BEL.
    pub name: String,
    /// Signal direction.
    pub direction: PinDirection,
    /// Wire that the pin is joined to.
    pub wire: WireId,
}

/// One routing wire.
#[derive(Clone, Debug, PartialEq, Eq)]
pub struct Wire {
    /// Display name.
    pub name: String,
    /// Tile of the wire.
    pub point: Point,
    /// Number of nets that may use the wire.
    pub capacity: u16,
}

/// One programmable connection.
#[derive(Clone, Copy, Debug, PartialEq, Eq, Structural)]
pub struct Pip {
    /// Source wire.
    pub from: WireId,
    /// Destination wire.
    pub to: WireId,
    /// Whether the connection may also be used backwards.
    pub bidirectional: bool,
    /// Number of nets that may use the connection.
    pub capacity: u16,
}

impl Pip {
    /// Number of nets that may use the connection.
    pub fn capacity(&self) -> (result: u16)
        ensures
            result == self.capacity,
    {
        self.capacity
    }

    /// Whether a signal can pass from one wire to another.
    pub open spec fn joins(self, from: WireId, to: WireId) -> bool {
        ||| self.from == from && self.to == to
        ||| self.bidirectional && self.to == from && self.from == to
    }

    /// Whether a signal can pass from one wire to another.
    pub fn passes(&self, from: WireId, to: WireId) -> (result: bool)
        ensures
            result == self.joins(from, to),
    {
        (self.from == from && self.to == to) || (self.bidirectional && self.to == from && self.from
            == to)
    }
}

/// Arenas of the physical device.
#[derive(Clone, Debug, PartialEq, Eq)]
pub struct Device {
    /// Display name.
    pub name: String,
    /// Number of tile columns.
    pub width: u32,
    /// Number of tile rows.
    pub height: u32,
    /// Basic elements by [`BelId`].
    pub bels: Vec<Bel>,
    /// Pins of basic elements by [`BelPinId`].
    pub bel_pins: Vec<BelPin>,
    /// Wires by [`WireId`].
    pub wires: Vec<Wire>,
    /// Programmable connections by [`PipId`].
    pub pips: Vec<Pip>,
    /// Wires that a signal can pass to from each wire, with the connection it takes.
    pub neighbors: Vec<Vec<(WireId, PipId)>>,
}

impl Device {
    /// The point is one of the device's tiles.
    pub open spec fn holds(&self, point: Point) -> bool {
        point.x < self.width && point.y < self.height
    }

    /// The extent is not empty and every tile has an index.
    pub open spec fn extent_wf(&self) -> bool {
        &&& 0 < self.width
        &&& 0 < self.height
        &&& self.width * self.height <= u32::MAX
    }

    /// BELs and their pins refer to each other, and every BEL lies on the device.
    pub open spec fn bels_wf(&self) -> bool {
        &&& forall|b: int| 0 <= b < self.bels@.len() ==> self.holds((#[trigger] self.bels@[b]).point)
        &&& forall|b: int, k: int|
            0 <= b < self.bels@.len() && 0 <= k < self.bels@[b].pins@.len() ==> {
                let pin = #[trigger] self.bels@[b].pins@[k];
                pin.0 < self.bel_pins@.len() && self.bel_pins@[pin.0 as int].bel.0 == b
            }
        &&& forall|p: int|
            0 <= p < self.bel_pins@.len() ==> {
                let pin = #[trigger] self.bel_pins@[p];
                pin.bel.0 < self.bels@.len() && pin.wire.0 < self.wires@.len()
            }
    }

    /// The pip takes a signal from one wire to another.
    pub open spec fn leads(&self, from: WireId, pip: PipId, to: WireId) -> bool {
        pip.0 < self.pips@.len() && self.pips@[pip.0 as int].joins(from, to)
    }

    /// Wires lie on the device, and each connection joins two of them.
    pub open spec fn wires_wf(&self) -> bool {
        &&& self.wires@.len() < u32::MAX
        &&& self.pips@.len() < u32::MAX
        &&& forall|w: int|
            0 <= w < self.wires@.len() ==> self.holds((#[trigger] self.wires@[w]).point)
        &&& forall|p: int|
            0 <= p < self.pips@.len() ==> {
                let pip = #[trigger] self.pips@[p];
                pip.from.0 < self.wires@.len() && pip.to.0 < self.wires@.len()
            }
    }

    /// The neighbor lists hold exactly the hops that the connections allow.
    pub open spec fn neighbors_wf(&self) -> bool {
        &&& self.neighbors@.len() == self.wires@.len()
        &&& forall|w: int, k: int|
            0 <= w < self.neighbors@.len() && 0 <= k < self.neighbors@[w]@.len() ==> {
                let hop = #[trigger] self.neighbors@[w]@[k];
                self.leads(WireId(w as usize), hop.1, hop.0)
            }
        &&& forall|p: int|
            0 <= p < self.pips@.len() ==> {
                let pip = #[trigger] self.pips@[p];
                &&& self.neighbors@[pip.from.0 as int]@.contains((pip.to, PipId(p as usize)))
                &&& pip.bidirectional ==> self.neighbors@[pip.to.0 as int]@.contains(
                    (pip.from, PipId(p as usize)),
                )
            }
    }

    /// The arenas refer to each other consistently.
    pub open spec fn wf(&self) -> bool {
        self.extent_wf() && self.bels_wf() && self.wires_wf() && self.neighbors_wf()
    }

    /// Every allowed hop is listed.
    pub proof fn lemma_listed(&self, from: WireId, pip: PipId, to: WireId)
        requires
            self.wf(),
            self.leads(from, pip, to),
        ensures
            from.0 < self.wires@.len(),
            to.0 < self.wires@.len(),
            self.neighbors@[from.0 as int]@.contains((to, pip)),
    {
        let record = self.pips@[pip.0 as int];
        assert(PipId((pip.0 as int) as usize) == pip);
    }

    /// Every listed hop is allowed.
    pub proof fn lemma_hop(&self, from: WireId, index: int)
        requires
            self.wf(),
            from.0 < self.wires@.len(),
            0 <= index < self.neighbors@[from.0 as int]@.len(),
        ensures
            self.leads(
                from,
                self.neighbors@[from.0 as int]@[index].1,
                self.neighbors@[from.0 as int]@[index].0,
            ),
            self.neighbors@[from.0 as int]@[index].0.0 < self.wires@.len(),
            self.neighbors@[from.0 as int]@[index].1.0 < self.pips@.len(),
    {
        let hop = self.neighbors@[from.0 as int]@[index];
        assert(WireId((from.0 as int) as usize) == from);
        assert(self.leads(from, hop.1, hop.0));
        let record = self.pips@[hop.1.0 as int];
    }

    /// A device without resources.
    pub fn new(name: String, width: u32, height: u32) -> (result: Result<Self, ModelError>)
        ensures
            result is Ok <==> (0 < width && 0 < height && width * height <= u32::MAX),
            result matches Err(error) ==> error == ModelError::InvalidExtent,
            result matches Ok(device) ==> {
                &&& device.wf()
                &&& device.name == name
                &&& device.width == width
                &&& device.height == height
                &&& device.bels@.len() == 0
                &&& device.bel_pins@.len() == 0
                &&& device.wires@.len() == 0
                &&& device.pips@.len() == 0
            },
    {
        if width == 0 || height == 0 {
            return Err(ModelError::InvalidExtent);
        }
        match width.checked_mul(height) {
            None => Err(ModelError::InvalidExtent),
            Some(_) => Ok(
                Device {
                    name,
                    width,
                    height,
                    bels: Vec::new(),
                    bel_pins: Vec::new(),
                    wires: Vec::new(),
                    pips: Vec::new(),
                    neighbors: Vec::new(),
                },
            ),
        }
    }

    /// Number of tile columns.
    pub fn width(&self) -> (result: u32)
        ensures
            result == self.width,
    {
        self.width
    }

    /// Number of tile rows.
    pub fn height(&self) -> (result: u32)
        ensures
            result == self.height,
    {
        self.height
    }

    /// Basic elements by [`BelId`].
    pub fn bels(&self) -> (result: &Vec<Bel>)
        ensures
            *result == self.bels,
    {
        &self.bels
    }

    /// Pins of basic elements by [`BelPinId`].
    pub fn bel_pins(&self) -> (result: &Vec<BelPin>)
        ensures
            *result == self.bel_pins,
    {
        &self.bel_pins
    }

    /// Wires by [`WireId`].
    pub fn wires(&self) -> (result: &Vec<Wire>)
        ensures
            *result == self.wires,
    {
        &self.wires
    }

    /// Programmable connections by [`PipId`].
    pub fn pips(&self) -> (result: &Vec<Pip>)
        ensures
            *result == self.pips,
    {
        &self.pips
    }

    /// Adds a BEL without pins.
    pub fn add_bel(&mut self, name: String, kind: ResourceKind, point: Point) -> (result: Result<
        BelId,
        ModelError,
    >)
        requires
            old(self).wf(),
        ensures
            final(self).wf(),
            result is Ok <==> old(self).holds(point),
            result matches Err(error) ==> error == ModelError::OutsideDevice(point) && *final(self)
                == *old(self),
            result matches Ok(id) ==> {
                &&& id.0 == old(self).bels@.len()
                &&& final(self).bels@ == old(self).bels@.push(final(self).bels@[id.0 as int])
                &&& final(self).bels@[id.0 as int].name == name
                &&& final(self).bels@[id.0 as int].kind == kind
                &&& final(self).bels@[id.0 as int].point == point
                &&& final(self).bels@[id.0 as int].pins@.len() == 0
                &&& final(self).bel_pins == old(self).bel_pins
                &&& final(self).wires == old(self).wires
                &&& final(self).pips == old(self).pips
                &&& final(self).width == old(self).width
                &&& final(self).height == old(self).height
                &&& final(self).name == old(self).name
            },
    {
        if point.x >= self.width || point.y >= self.height {
            return Err(ModelError::OutsideDevice(point));
        }
        let id = BelId(self.bels.len());
        self.bels.push(Bel { name, kind, point, pins: Vec::new() });
        proof {
            let before = *old(self);
            let after = *self;
            assert forall|b: int, k: int|
                0 <= b < after.bels@.len() && 0 <= k < after.bels@[b].pins@.len() implies {
                let pin = #[trigger] after.bels@[b].pins@[k];
                pin.0 < after.bel_pins@.len() && after.bel_pins@[pin.0 as int].bel.0 == b
            } by {
                let pin = before.bels@[b].pins@[k];
            }
            assert(after.neighbors == before.neighbors);
            assert forall|w: int, k: int|
                0 <= w < after.neighbors@.len() && 0 <= k < after.neighbors@[w]@.len() implies {
                let hop = #[trigger] after.neighbors@[w]@[k];
                after.leads(WireId(w as usize), hop.1, hop.0)
            } by {
                let hop = before.neighbors@[w]@[k];
                assert(before.leads(WireId(w as usize), hop.1, hop.0));
            }
        }
        Ok(id)
    }

    /// Adds a pin that joins a BEL to a wire.
    pub fn add_bel_pin(
        &mut self,
        bel: BelId,
        name: String,
        direction: PinDirection,
        wire: WireId,
    ) -> (result: Result<BelPinId, ModelError>)
        requires
            old(self).wf(),
        ensures
            final(self).wf(),
            result is Ok <==> (bel.0 < old(self).bels@.len() && wire.0 < old(self).wires@.len()),
            result matches Err(error) ==> *final(self) == *old(self) && error == if bel.0 >= old(
                self).bels@.len() {
                ModelError::UnknownBel(bel)
            } else {
                ModelError::UnknownWire(wire)
            },
            result matches Ok(id) ==> {
                &&& id.0 == old(self).bel_pins@.len()
                &&& final(self).bel_pins@ == old(self).bel_pins@.push(
                    (BelPin { bel, name, direction, wire }),
                )
                &&& final(self).bels@.len() == old(self).bels@.len()
                &&& final(self).bels@[bel.0 as int].pins@
                    == old(self).bels@[bel.0 as int].pins@.push(id)
                &&& final(self).bels@[bel.0 as int].name == old(self).bels@[bel.0 as int].name
                &&& final(self).bels@[bel.0 as int].kind == old(self).bels@[bel.0 as int].kind
                &&& final(self).bels@[bel.0 as int].point == old(self).bels@[bel.0 as int].point
                &&& forall|b: int|
                    0 <= b < old(self).bels@.len() && b != bel.0 ==> #[trigger] final(self).bels@[b]
                        == old(self).bels@[b]
                &&& final(self).wires == old(self).wires
                &&& final(self).pips == old(self).pips
                &&& final(self).width == old(self).width
                &&& final(self).height == old(self).height
                &&& final(self).name == old(self).name
            },
    {
        if bel.0 >= self.bels.len() {
            return Err(ModelError::UnknownBel(bel));
        }
        if wire.0 >= self.wires.len() {
            return Err(ModelError::UnknownWire(wire));
        }
        let id = BelPinId(self.bel_pins.len());
        self.bel_pins.push(BelPin { bel, name, direction, wire });
        self.bels[bel.0].pins.push(id);
        proof {
            let before = *old(self);
            let after = *self;
            assert forall|b: int| 0 <= b < after.bels@.len() implies after.holds(
                (#[trigger] after.bels@[b]).point,
            ) by {
                assert(before.holds(before.bels@[b].point));
            }
            assert forall|b: int, k: int|
                0 <= b < after.bels@.len() && 0 <= k < after.bels@[b].pins@.len() implies {
                let pin = #[trigger] after.bels@[b].pins@[k];
                pin.0 < after.bel_pins@.len() && after.bel_pins@[pin.0 as int].bel.0 == b
            } by {
                if k < before.bels@[b].pins@.len() {
                    let pin = before.bels@[b].pins@[k];
                    assert(before.bel_pins@[pin.0 as int].bel.0 == b);
                }
            }
            assert forall|w: int, k: int|
                0 <= w < after.neighbors@.len() && 0 <= k < after.neighbors@[w]@.len() implies {
                let hop = #[trigger] after.neighbors@[w]@[k];
                after.leads(WireId(w as usize), hop.1, hop.0)
            } by {
                let hop = before.neighbors@[w]@[k];
                assert(before.leads(WireId(w as usize), hop.1, hop.0));
            }
        }
        Ok(id)
    }

    /// Adds a wire without connections.
    pub fn add_wire(&mut self, name: String, point: Point, capacity: u16) -> (result: Result<
        WireId,
        ModelError,
    >)
        requires
            old(self).wf(),
        ensures
            final(self).wf(),
            result is Ok <==> (old(self).holds(point) && old(self).wires@.len() + 1 < u32::MAX),
            result matches Err(error) ==> *final(self) == *old(self) && error == if !old(
                self).holds(point) {
                ModelError::OutsideDevice(point)
            } else {
                ModelError::TooManyResources
            },
            result matches Ok(id) ==> {
                &&& id.0 == old(self).wires@.len()
                &&& final(self).wires@ == old(self).wires@.push((Wire { name, point, capacity }))
                &&& final(self).bels == old(self).bels
                &&& final(self).bel_pins == old(self).bel_pins
                &&& final(self).pips == old(self).pips
                &&& final(self).width == old(self).width
                &&& final(self).height == old(self).height
                &&& final(self).name == old(self).name
            },
    {
        if point.x >= self.width || point.y >= self.height {
            return Err(ModelError::OutsideDevice(point));
        }
        if self.wires.len() >= 0xffff_fffe {
            return Err(ModelError::TooManyResources);
        }
        let id = WireId(self.wires.len());
        self.wires.push(Wire { name, point, capacity });
        self.neighbors.push(Vec::new());
        proof {
            let before = *old(self);
            let after = *self;
            assert forall|p: int| 0 <= p < after.bel_pins@.len() implies {
                let pin = #[trigger] after.bel_pins@[p];
                pin.bel.0 < after.bels@.len() && pin.wire.0 < after.wires@.len()
            } by {
                let pin = before.bel_pins@[p];
            }
            assert forall|b: int, k: int|
                0 <= b < after.bels@.len() && 0 <= k < after.bels@[b].pins@.len() implies {
                let pin = #[trigger] after.bels@[b].pins@[k];
                pin.0 < after.bel_pins@.len() && after.bel_pins@[pin.0 as int].bel.0 == b
            } by {
                let pin = before.bels@[b].pins@[k];
            }
            assert forall|w: int, k: int|
                0 <= w < after.neighbors@.len() && 0 <= k < after.neighbors@[w]@.len() implies {
                let hop = #[trigger] after.neighbors@[w]@[k];
                after.leads(WireId(w as usize), hop.1, hop.0)
            } by {
                let hop = before.neighbors@[w]@[k];
                assert(before.leads(WireId(w as usize), hop.1, hop.0));
            }
        }
        Ok(id)
    }

    /// Adds a programmable connection between two wires.
    pub fn add_pip(&mut self, from: WireId, to: WireId, bidirectional: bool, capacity: u16) -> (result:
        Result<PipId, ModelError>)
        requires
            old(self).wf(),
        ensures
            final(self).wf(),
            result is Ok <==> (from.0 < old(self).wires@.len() && to.0 < old(self).wires@.len()
                && old(self).pips@.len() + 1 < u32::MAX),
            result matches Err(error) ==> *final(self) == *old(self) && error == if from.0 >= old(
                self).wires@.len() {
                ModelError::UnknownWire(from)
            } else if to.0 >= old(self).wires@.len() {
                ModelError::UnknownWire(to)
            } else {
                ModelError::TooManyResources
            },
            result matches Ok(id) ==> {
                &&& id.0 == old(self).pips@.len()
                &&& final(self).pips@ == old(self).pips@.push(
                    (Pip { from, to, bidirectional, capacity }),
                )
                &&& final(self).wires == old(self).wires
                &&& final(self).bels == old(self).bels
                &&& final(self).bel_pins == old(self).bel_pins
                &&& final(self).width == old(self).width
                &&& final(self).height == old(self).height
                &&& final(self).name == old(self).name
            },
    {
        if from.0 >= self.wires.len() {
            return Err(ModelError::UnknownWire(from));
        }
        if to.0 >= self.wires.len() {
            return Err(ModelError::UnknownWire(to));
        }
        if self.pips.len() >= 0xffff_fffe {
            return Err(ModelError::TooManyResources);
        }
        let id = PipId(self.pips.len());
        self.pips.push(Pip { from, to, bidirectional, capacity });
        self.neighbors[from.0].push((to, id));
        let ghost middle = self.neighbors@;
        if bidirectional {
            self.neighbors[to.0].push((from, id));
        }
        proof {
            let before = *old(self);
            let after = *self;
            assert(before.neighbors.len() == before.neighbors@.len());
            assert forall|b: int, k: int|
                0 <= b < after.bels@.len() && 0 <= k < after.bels@[b].pins@.len() implies {
                let pin = #[trigger] after.bels@[b].pins@[k];
                pin.0 < after.bel_pins@.len() && after.bel_pins@[pin.0 as int].bel.0 == b
            } by {
                let pin = before.bels@[b].pins@[k];
            }
            assert forall|w: int, k: int|
                0 <= w < after.neighbors@.len() && 0 <= k < after.neighbors@[w]@.len() implies {
                let hop = #[trigger] after.neighbors@[w]@[k];
                after.leads(WireId(w as usize), hop.1, hop.0)
            } by {
                if k < before.neighbors@[w]@.len() {
                    let hop = before.neighbors@[w]@[k];
                    assert(before.leads(WireId(w as usize), hop.1, hop.0));
                    assert(after.neighbors@[w]@[k] == hop);
                } else if k < middle[w]@.len() {
                    assert(middle[w]@[k] == (to, id));
                }
            }
            assert forall|p: int| 0 <= p < after.pips@.len() implies {
                let pip = #[trigger] after.pips@[p];
                &&& after.neighbors@[pip.from.0 as int]@.contains((pip.to, PipId(p as usize)))
                &&& pip.bidirectional ==> after.neighbors@[pip.to.0 as int]@.contains(
                    (pip.from, PipId(p as usize)),
                )
            } by {
                let pip = after.pips@[p];
                if p < before.pips@.len() {
                    assert(pip == before.pips@[p]);
                    assert(pip.from.0 < before.wires@.len() && pip.to.0 < before.wires@.len());
                    let a = before.neighbors@[pip.from.0 as int]@;
                    let k = a.index_of((pip.to, PipId(p as usize)));
                    assert(after.neighbors@[pip.from.0 as int]@[k] == (pip.to, PipId(p as usize)));
                    if pip.bidirectional {
                        let b = before.neighbors@[pip.to.0 as int]@;
                        let j = b.index_of((pip.from, PipId(p as usize)));
                        assert(after.neighbors@[pip.to.0 as int]@[j] == (
                            pip.from,
                            PipId(p as usize),
                        ));
                    }
                } else {
                    let a = before.neighbors@[from.0 as int]@.len() as int;
                    assert(middle[from.0 as int]@[a] == (to, id));
                    assert(after.neighbors@[from.0 as int]@[a] == (to, id));
                    if bidirectional {
                        let b = middle[to.0 as int]@.len() as int;
                        assert(after.neighbors@[to.0 as int]@[b] == (from, id));
                    }
                }
            }
        }
        Ok(id)
    }

    /// BELs of one class, in increasing order.
    pub fn bels_of_kind(&self, kind: ResourceKind) -> (result: Vec<BelId>)
        ensures
            forall|b: BelId|
                #[trigger] result@.contains(b) <==> (b.0 < self.bels@.len() && self.bels@[b.0 as int].kind
                    == kind),
            crate::ordered::increasing(result@),
    {
        let mut result: Vec<BelId> = Vec::new();
        let mut index: usize = 0;
        while index < self.bels.len()
            invariant
                index <= self.bels@.len(),
                forall|b: BelId|
                    #[trigger] result@.contains(b) <==> (b.0 < index && self.bels@[b.0 as int].kind == kind),
                forall|k: int| 0 <= k < result@.len() ==> (#[trigger] result@[k]).0 < index,
                crate::ordered::increasing(result@),
            decreases self.bels@.len() - index,
        {
            let ghost before = result@;
            if self.bels[index].kind == kind {
                result.push(BelId(index));
                proof {
                    assert forall|b: BelId| #[trigger] result@.contains(b) <==> (before.contains(b) || b
                        == BelId(index)) by {
                        if before.contains(b) {
                            let k = before.index_of(b);
                            assert(result@[k] == b);
                        }
                        assert(result@[before.len() as int] == BelId(index));
                    }
                }
            }
            index = index + 1;
        }
        result
    }
}

/// A logical design and a physical device seen as one graph.
#[derive(Clone, Copy)]
pub struct UnifiedGraph<'a> {
    /// Logical side.
    pub design: &'a Design,
    /// Physical side.
    pub device: &'a Device,
}

impl<'a> UnifiedGraph<'a> {
    /// Both sides are consistent.
    pub open spec fn wf(&self) -> bool {
        self.design.wf() && self.device.wf()
    }

    /// The graph with these sides.
    pub open spec fn of(design: &'a Design, device: &'a Device) -> UnifiedGraph<'a> {
        UnifiedGraph { design, device }
    }

    /// The graph of a design and a device.
    pub fn new(design: &'a Design, device: &'a Device) -> (result: Self)
        ensures
            result.design == design,
            result.device == device,
    {
        UnifiedGraph { design, device }
    }

    /// Logical side.
    pub fn design(&self) -> (result: &'a Design)
        ensures
            result == self.design,
    {
        self.design
    }

    /// Physical side.
    pub fn device(&self) -> (result: &'a Device)
        ensures
            result == self.device,
    {
        self.device
    }

    /// Wires reached from one wire by one hop, in order of the connections' creation.
    pub fn routing_neighbors(&self, wire: WireId) -> (result: Result<
        &'a Vec<(WireId, PipId)>,
        ModelError,
    >)
        requires
            self.device.wf(),
        ensures
            result is Ok <==> wire.0 < self.device.wires@.len(),
            result matches Err(error) ==> error == ModelError::UnknownWire(wire),
            result matches Ok(hops) ==> hops@ == self.device.neighbors@[wire.0 as int]@,
    {
        if wire.0 >= self.device.neighbors.len() {
            return Err(ModelError::UnknownWire(wire));
        }
        Ok(&self.device.neighbors[wire.0])
    }

    /// The physical pin has the name and the direction that the binding asks for.
    pub open spec fn pin_matches(
        &self,
        physical: BelPinId,
        name: Seq<char>,
        direction: PinDirection,
    ) -> bool {
        &&& self.device.bel_pins@[physical.0 as int].name@ == name
        &&& self.device.bel_pins@[physical.0 as int].direction == direction
    }

    /// Index of the first pin of a BEL with one name and direction.
    pub open spec fn first_match(
        &self,
        pins: Seq<BelPinId>,
        name: Seq<char>,
        direction: PinDirection,
    ) -> Option<BelPinId>
        decreases pins.len(),
    {
        if pins.len() == 0 {
            None
        } else if self.pin_matches(pins[0], name, direction) {
            Some(pins[0])
        } else {
            self.first_match(pins.drop_first(), name, direction)
        }
    }

    /// Physical pin that a logical pin takes on one BEL under one physical name.
    pub open spec fn named_pin(&self, pin: CellPinId, bel: BelId, name: Seq<char>) -> Option<
        BelPinId,
    > {
        if pin.0 < self.design.pins@.len() && bel.0 < self.device.bels@.len() {
            self.first_match(
                self.device.bels@[bel.0 as int].pins@,
                name,
                self.design.pins@[pin.0 as int].direction,
            )
        } else {
            None
        }
    }

    /// Physical pin that a logical pin takes on one BEL by its own name.
    pub open spec fn own_pin(&self, pin: CellPinId, bel: BelId) -> Option<BelPinId> {
        if pin.0 < self.design.pins@.len() {
            self.named_pin(pin, bel, self.design.pins@[pin.0 as int].name@)
        } else {
            None
        }
    }

    /// The first matching pin is one of the pins, and it matches.
    pub proof fn lemma_first_match(
        &self,
        pins: Seq<BelPinId>,
        name: Seq<char>,
        direction: PinDirection,
    )
        ensures
            match self.first_match(pins, name, direction) {
                Some(found) => pins.contains(found) && self.pin_matches(found, name, direction),
                None => forall|k: int|
                    0 <= k < pins.len() ==> !self.pin_matches(#[trigger] pins[k], name, direction),
            },
        decreases pins.len(),
    {
        if pins.len() > 0 && !self.pin_matches(pins[0], name, direction) {
            let rest = pins.drop_first();
            self.lemma_first_match(rest, name, direction);
            match self.first_match(rest, name, direction) {
                Some(found) => {
                    let k = rest.index_of(found);
                    assert(pins[k + 1] == found);
                },
                None => {
                    assert forall|k: int| 0 <= k < pins.len() implies !self.pin_matches(
                        #[trigger] pins[k],
                        name,
                        direction,
                    ) by {
                        if k > 0 {
                            assert(rest[k - 1] == pins[k]);
                        }
                    }
                },
            }
        } else if pins.len() > 0 {
            assert(pins.contains(pins[0]));
        }
    }

    /// First physical pin of a BEL with the direction of a logical pin and one physical name.
    pub fn physical_pin_by_name(&self, logical_pin: CellPinId, bel: BelId, physical_name: &String) -> (result:
        Option<BelPinId>)
        requires
            self.wf(),
        ensures
            result == self.named_pin(logical_pin, bel, physical_name@),
            result matches Some(found) ==> found.0 < self.device.bel_pins@.len()
                && self.device.bel_pins@[found.0 as int].bel == bel,
    {
        if logical_pin.0 >= self.design.pins.len() || bel.0 >= self.device.bels.len() {
            return None;
        }
        let direction = self.design.pins[logical_pin.0].direction;
        let pins = &self.device.bels[bel.0].pins;
        let mut index: usize = 0;
        assert(pins@.skip(0) =~= pins@);
        while index < pins.len()
            invariant
                self.wf(),
                index <= pins@.len(),
                bel.0 < self.device.bels@.len(),
                pins@ == self.device.bels@[bel.0 as int].pins@,
                self.first_match(pins@, physical_name@, direction) == self.first_match(
                    pins@.skip(index as int),
                    physical_name@,
                    direction,
                ),
                logical_pin.0 < self.design.pins@.len(),
                direction == self.design.pins@[logical_pin.0 as int].direction,
            decreases pins@.len() - index,
        {
            let pin = pins[index];
            assert(pin == self.device.bels@[bel.0 as int].pins@[index as int]);
            assert(pin.0 < self.device.bel_pins@.len());
            let physical = &self.device.bel_pins[pin.0];
            assert(pins@.skip(index as int)[0] == pin);
            assert(pins@.skip(index as int).drop_first() =~= pins@.skip(index + 1));
            if physical.name == *physical_name && physical.direction == direction {
                return Some(pin);
            }
            index = index + 1;
        }
        assert(pins@.skip(index as int).len() == 0);
        None
    }

    /// Physical pin that a logical pin takes on one BEL by its own name.
    pub fn bound_bel_pin(&self, pin: CellPinId, bel: BelId) -> (result: Result<BelPinId, ModelError>)
        requires
            self.wf(),
        ensures
            match result {
                Ok(found) => self.own_pin(pin, bel) == Some(found) && found.0
                    < self.device.bel_pins@.len() && self.device.bel_pins@[found.0 as int].bel == bel,
                Err(error) => self.own_pin(pin, bel) is None && error == if pin.0
                    >= self.design.pins@.len() {
                    ModelError::UnknownCellPin(pin)
                } else if bel.0 >= self.device.bels@.len() {
                    ModelError::UnknownBel(bel)
                } else {
                    ModelError::UnboundCellPin(pin, bel)
                },
            },
    {
        if pin.0 >= self.design.pins.len() {
            return Err(ModelError::UnknownCellPin(pin));
        }
        if bel.0 >= self.device.bels.len() {
            return Err(ModelError::UnknownBel(bel));
        }
        match self.physical_pin_by_name(pin, bel, &self.design.pins[pin.0].name) {
            Some(found) => Ok(found),
            None => Err(ModelError::UnboundCellPin(pin, bel)),
        }
    }

    /// Wire that a logical pin takes on one BEL by its own name.
    pub fn bound_wire(&self, pin: CellPinId, bel: BelId) -> (result: Result<WireId, ModelError>)
        requires
            self.wf(),
        ensures
            match result {
                Ok(wire) => self.own_pin(pin, bel) matches Some(found)
                    && self.device.bel_pins@[found.0 as int].wire == wire && wire.0
                    < self.device.wires@.len(),
                Err(error) => self.own_pin(pin, bel) is None && error == if pin.0
                    >= self.design.pins@.len() {
                    ModelError::UnknownCellPin(pin)
                } else if bel.0 >= self.device.bels@.len() {
                    ModelError::UnknownBel(bel)
                } else {
                    ModelError::UnboundCellPin(pin, bel)
                },
            },
    {
        match self.bound_bel_pin(pin, bel) {
            Ok(found) => Ok(self.device.bel_pins[found.0].wire),
            Err(error) => Err(error),
        }
    }
}

} // verus!
