//! Complete cell-to-BEL assignment and the wires its pins land on.

use vstd::prelude::*;

use crate::device::{Device, UnifiedGraph};
use crate::error::PnrError;
use crate::model::{BelId, BelPinId, CellId, CellPinId, Point, WireId};
use crate::ordered::OrderedMap;

verus! {

/// Cell-to-BEL bindings and the physical pins that packing selected.
#[derive(Clone, Debug, PartialEq, Eq)]
pub struct Placement {
    /// BEL of each cell, by cell ID.
    pub bindings: Vec<BelId>,
    /// Physical pin of each logical pin whose port name was changed.
    pub pin_bindings: OrderedMap<CellPinId, BelPinId>,
}

impl Placement {
    /// The pin table is ordered.
    pub open spec fn wf(&self) -> bool {
        self.pin_bindings.wf()
    }

    /// Every binding names a BEL and every pin binding names a BEL pin of the device.
    pub open spec fn fits(&self, device: &Device) -> bool {
        &&& self.wf()
        &&& forall|c: int|
            0 <= c < self.bindings@.len() ==> (#[trigger] self.bindings@[c]).0 < device.bels@.len()
        &&& forall|p: CellPinId| #[trigger]
            self.pin_bindings@.contains_key(p) ==> self.pin_bindings@[p].0 < device.bel_pins@.len()
    }

    /// BEL of a cell.
    pub open spec fn bel_of(&self, cell: CellId) -> Option<BelId> {
        if cell.0 < self.bindings@.len() {
            Some(self.bindings@[cell.0 as int])
        } else {
            None
        }
    }

    /// Both placements bind the same cells and pins alike.
    pub open spec fn same(&self, other: &Placement) -> bool {
        self.bindings@ == other.bindings@ && self.pin_bindings@ == other.pin_bindings@
    }

    /// A copy of the placement.
    pub fn copied(&self) -> (result: Self)
        requires
            self.wf(),
        ensures
            result.wf(),
            result.same(self),
    {
        let mut bindings: Vec<BelId> = Vec::new();
        let mut index: usize = 0;
        while index < self.bindings.len()
            invariant
                index <= self.bindings@.len(),
                bindings@ == self.bindings@.take(index as int),
            decreases self.bindings@.len() - index,
        {
            bindings.push(self.bindings[index]);
            assert(self.bindings@.take(index + 1) =~= self.bindings@.take(index as int).push(
                self.bindings@[index as int],
            ));
            index = index + 1;
        }
        assert(self.bindings@.take(index as int) =~= self.bindings@);
        Placement { bindings, pin_bindings: self.pin_bindings.copied() }
    }

    /// BEL assigned to a cell, if the cell ID exists.
    pub fn bel(&self, cell: CellId) -> (result: Option<BelId>)
        ensures
            result == self.bel_of(cell),
    {
        if cell.0 < self.bindings.len() {
            Some(self.bindings[cell.0])
        } else {
            None
        }
    }

    /// Cell-to-BEL bindings in stable cell ID order.
    pub fn bindings(&self) -> (result: &[BelId])
        ensures
            result@ == self.bindings@,
    {
        self.bindings.as_slice()
    }

    /// Target-selected physical pin override, when packing changed the
    /// logical-to-physical port name.
    pub fn pin_binding(&self, pin: CellPinId) -> (result: Option<BelPinId>)
        requires
            self.wf(),
        ensures
            result == if self.pin_bindings@.contains_key(pin) {
                Some(self.pin_bindings@[pin])
            } else {
                None
            },
    {
        match self.pin_bindings.get(pin) {
            Some(bel_pin) => Some(*bel_pin),
            None => None,
        }
    }

    /// Physical point assigned to a cell.
    pub fn point(&self, cell: CellId, device: &Device) -> (result: Option<Point>)
        ensures
            result == match self.bel_of(cell) {
                Some(bel) => if bel.0 < device.bels@.len() {
                    Some(device.bels@[bel.0 as int].point)
                } else {
                    None
                },
                None => None,
            },
    {
        match self.bel(cell) {
            Some(bel) => if bel.0 < device.bels.len() {
                Some(device.bels[bel.0].point)
            } else {
                None
            },
            None => None,
        }
    }
}

/// Wire of a logical pin whose cell stands on one BEL.
pub open spec fn wire_on(
    graph: UnifiedGraph<'_>,
    placement: &Placement,
    pin: CellPinId,
    bel: BelId,
) -> Option<WireId> {
    if placement.pin_bindings@.contains_key(pin) {
        Some(graph.device.bel_pins@[placement.pin_bindings@[pin].0 as int].wire)
    } else {
        match graph.own_pin(pin, bel) {
            Some(bel_pin) => Some(graph.device.bel_pins@[bel_pin.0 as int].wire),
            None => None,
        }
    }
}

/// Wire of a logical pin under a placement.
pub open spec fn pin_wire(
    graph: UnifiedGraph<'_>,
    placement: &Placement,
    pin: CellPinId,
) -> Option<WireId> {
    if pin.0 < graph.design.pins@.len() {
        match placement.bel_of(graph.design.pins@[pin.0 as int].cell) {
            Some(bel) => wire_on(graph, placement, pin, bel),
            None => None,
        }
    } else {
        None
    }
}

/// Wire of a logical pin whose cell stands on one BEL.
pub fn bound_wire(
    graph: &UnifiedGraph<'_>,
    placement: &Placement,
    cell_pin: CellPinId,
    bel: BelId,
) -> (result: Result<WireId, PnrError>)
    requires
        graph.wf(),
        placement.fits(graph.device),
    ensures
        match result {
            Ok(wire) => wire_on(*graph, placement, cell_pin, bel) == Some(wire) && wire.0
                < graph.device.wires@.len(),
            Err(error) => wire_on(*graph, placement, cell_pin, bel) is None && error is Model,
        },
{
    match placement.pin_binding(cell_pin) {
        Some(bel_pin) => Ok(graph.device.bel_pins[bel_pin.0].wire),
        None => match graph.bound_wire(cell_pin, bel) {
            Ok(wire) => Ok(wire),
            Err(error) => Err(PnrError::Model(error)),
        },
    }
}

/// Pin-to-wire resolutions for one fixed placement, computed once.
///
/// Resolving a logical pin scans the pins of its BEL with name comparisons,
/// and negotiated routing resolves the same pins on every net and iteration.
#[derive(Clone, Debug)]
pub struct PinWireCache {
    /// Wire of each logical pin, where it has one.
    pub wires: Vec<Option<WireId>>,
}

impl PinWireCache {
    /// The cache holds the wire of every pin under the placement.
    pub open spec fn holds(&self, graph: UnifiedGraph<'_>, placement: &Placement) -> bool {
        &&& self.wires@.len() == graph.design.pins@.len()
        &&& forall|p: int|
            0 <= p < self.wires@.len() ==> #[trigger] self.wires@[p] == pin_wire(
                graph,
                placement,
                CellPinId(p as usize),
            )
    }

    /// Resolves every pin of the design.
    pub fn build(graph: &UnifiedGraph<'_>, placement: &Placement) -> (result: Self)
        requires
            graph.wf(),
            placement.fits(graph.device),
        ensures
            result.holds(*graph, placement),
    {
        let mut wires: Vec<Option<WireId>> = Vec::new();
        let mut index: usize = 0;
        while index < graph.design.pins.len()
            invariant
                index <= graph.design.pins@.len(),
                graph.wf(),
                placement.fits(graph.device),
                wires@.len() == index,
                forall|p: int|
                    0 <= p < index ==> #[trigger] wires@[p] == pin_wire(
                        *graph,
                        placement,
                        CellPinId(p as usize),
                    ),
            decreases graph.design.pins@.len() - index,
        {
            let pin = CellPinId(index);
            let wire = match placement.bel(graph.design.pins[index].cell) {
                Some(bel) => match bound_wire(graph, placement, pin, bel) {
                    Ok(wire) => Some(wire),
                    Err(_) => None,
                },
                None => None,
            };
            wires.push(wire);
            index = index + 1;
        }
        PinWireCache { wires }
    }

    /// Wire of a placed logical pin, or the failure to find one.
    pub fn resolve(
        &self,
        graph: &UnifiedGraph<'_>,
        placement: &Placement,
        cell_pin: CellPinId,
        bel: BelId,
    ) -> (result: Result<WireId, PnrError>)
        requires
            graph.wf(),
            placement.fits(graph.device),
            self.holds(*graph, placement),
            cell_pin.0 < graph.design.pins@.len(),
            placement.bel_of(graph.design.pins@[cell_pin.0 as int].cell) == Some(bel),
        ensures
            match result {
                Ok(wire) => pin_wire(*graph, placement, cell_pin) == Some(wire) && wire.0
                    < graph.device.wires@.len(),
                Err(error) => pin_wire(*graph, placement, cell_pin) is None && error is Model,
            },
    {
        proof {
            let p = cell_pin.0 as int;
            assert(self.wires@[p] == pin_wire(*graph, placement, CellPinId(p as usize)));
        }
        match self.wires[cell_pin.0] {
            Some(wire) => {
                proof {
                    lemma_wire_on_device(*graph, placement, cell_pin, bel);
                }
                Ok(wire)
            },
            None => bound_wire(graph, placement, cell_pin, bel),
        }
    }
}

/// The wire of a pin is a wire of the device.
pub proof fn lemma_wire_on_device(
    graph: UnifiedGraph<'_>,
    placement: &Placement,
    pin: CellPinId,
    bel: BelId,
)
    requires
        graph.wf(),
        placement.fits(graph.device),
    ensures
        wire_on(graph, placement, pin, bel) matches Some(wire) ==> wire.0
            < graph.device.wires@.len(),
{
    if !placement.pin_bindings@.contains_key(pin) && graph.own_pin(pin, bel) is Some {
        let pins = graph.device.bels@[bel.0 as int].pins@;
        let direction = graph.design.pins@[pin.0 as int].direction;
        let name = graph.design.pins@[pin.0 as int].name@;
        graph.lemma_first_match(pins, name, direction);
        let found = graph.own_pin(pin, bel)->0;
        let k = pins.index_of(found);
        assert(graph.device.bels@[bel.0 as int].pins@[k] == found);
        let record = graph.device.bel_pins@[found.0 as int];
    } else if placement.pin_bindings@.contains_key(pin) {
        let record = graph.device.bel_pins@[placement.pin_bindings@[pin].0 as int];
    }
}

} // verus!
