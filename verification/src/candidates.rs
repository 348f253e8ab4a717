//! BELs that can hold a cell, and the physical pins it takes on them.

use std::sync::Arc;

use vstd::prelude::*;
use vstd::string::*;

use crate::device::UnifiedGraph;
use crate::error::PnrError;
use crate::model::{
    BelId, BelPinId, CellId, CellPinId, ModelError, PinChoice, PinDirection, ResourceKind, WireId,
};
use crate::ordered::increasing;
use crate::placement_constraints::PlacementConstraints;
use crate::routing_costs::share;

verus! {

/// Physical pin that a logical pin takes on a BEL.
pub open spec fn choice_pin(
    graph: UnifiedGraph<'_>,
    constraints: &PlacementConstraints,
    pin: CellPinId,
    bel: BelId,
) -> Option<BelPinId> {
    if constraints.pin_bindings@.contains_key(PinChoice { pin, bel }) {
        Some(constraints.pin_bindings@[PinChoice { pin, bel }])
    } else if constraints.pin_name_bindings@.contains_key(pin) {
        graph.named_pin(pin, bel, constraints.pin_name_bindings@[pin]@)
    } else {
        graph.own_pin(pin, bel)
    }
}

/// Wire that a logical pin takes on a BEL.
pub open spec fn choice_wire(
    graph: UnifiedGraph<'_>,
    constraints: &PlacementConstraints,
    pin: CellPinId,
    bel: BelId,
) -> Option<WireId> {
    match choice_pin(graph, constraints, pin, bel) {
        Some(found) => if found.0 < graph.device.bel_pins@.len() {
            Some(graph.device.bel_pins@[found.0 as int].wire)
        } else {
            None
        },
        None => None,
    }
}

/// What is wrong with binding a logical pin on one BEL to a physical pin.
pub open spec fn binding_fault(
    graph: UnifiedGraph<'_>,
    pin: CellPinId,
    bel: BelId,
    bel_pin: BelPinId,
) -> Option<Seq<char>> {
    if pin.0 >= graph.design.pins@.len() {
        Some("unknown logical pin"@)
    } else if bel.0 >= graph.device.bels@.len() {
        Some("unknown BEL"@)
    } else if bel_pin.0 >= graph.device.bel_pins@.len() {
        Some("unknown BEL pin"@)
    } else if graph.device.bel_pins@[bel_pin.0 as int].bel != bel {
        Some("physical pin belongs to another BEL"@)
    } else if graph.design.cells@[graph.design.pins@[pin.0 as int].cell.0 as int].kind
        != graph.device.bels@[bel.0 as int].kind {
        Some("cell and BEL resource classes differ"@)
    } else if graph.design.pins@[pin.0 as int].direction
        != graph.device.bel_pins@[bel_pin.0 as int].direction {
        Some("logical and physical pin directions differ"@)
    } else {
        None
    }
}

/// What is wrong with binding a logical pin to a physical name.
pub open spec fn name_fault(graph: UnifiedGraph<'_>, pin: CellPinId, name: Seq<char>) -> Option<
    Seq<char>,
> {
    if pin.0 >= graph.design.pins@.len() {
        Some("unknown logical pin"@)
    } else if name.len() == 0 {
        Some("physical pin name must not be empty"@)
    } else {
        None
    }
}

/// Every pin binding is sound.
pub open spec fn pin_bindings_valid(
    graph: UnifiedGraph<'_>,
    constraints: &PlacementConstraints,
) -> bool {
    &&& forall|c: PinChoice| #[trigger]
        constraints.pin_bindings@.contains_key(c) ==> binding_fault(
            graph,
            c.pin,
            c.bel,
            constraints.pin_bindings@[c],
        ) is None
    &&& forall|p: CellPinId| #[trigger]
        constraints.pin_name_bindings@.contains_key(p) ==> name_fault(
            graph,
            p,
            constraints.pin_name_bindings@[p]@,
        ) is None
}

/// Which pin binding is at fault, and why.
pub open spec fn binding_defect(
    graph: UnifiedGraph<'_>,
    constraints: &PlacementConstraints,
    error: PnrError,
) -> bool {
    match error {
        PnrError::InvalidPinBinding { pin, bel, reason } => {
            let choice = PinChoice { pin, bel };
            &&& constraints.pin_bindings@.contains_key(choice)
            &&& binding_fault(graph, pin, bel, constraints.pin_bindings@[choice]) == Some(reason@)
        },
        PnrError::InvalidPinNameBinding { pin, name, reason } => {
            &&& constraints.pin_name_bindings@.contains_key(pin)
            &&& name@ == constraints.pin_name_bindings@[pin]@
            &&& name_fault(graph, pin, name@) == Some(reason@)
        },
        _ => false,
    }
}

/// Checks one binding of a logical pin on a BEL.
fn check_binding(
    graph: &UnifiedGraph<'_>,
    pin: CellPinId,
    bel: BelId,
    bel_pin: BelPinId,
) -> (result: Option<String>)
    requires
        graph.wf(),
    ensures
        match result {
            Some(reason) => binding_fault(*graph, pin, bel, bel_pin) == Some(reason@),
            None => binding_fault(*graph, pin, bel, bel_pin) is None,
        },
{
    let design = graph.design();
    let device = graph.device();
    if pin.0 >= design.pins.len() {
        return Some(String::from_str("unknown logical pin"));
    }
    if bel.0 >= device.bels.len() {
        return Some(String::from_str("unknown BEL"));
    }
    if bel_pin.0 >= device.bel_pins.len() {
        return Some(String::from_str("unknown BEL pin"));
    }
    if device.bel_pins[bel_pin.0].bel != bel {
        return Some(String::from_str("physical pin belongs to another BEL"));
    }
    if design.cells[design.pins[pin.0].cell.0].kind != device.bels[bel.0].kind {
        return Some(String::from_str("cell and BEL resource classes differ"));
    }
    if design.pins[pin.0].direction != device.bel_pins[bel_pin.0].direction {
        return Some(String::from_str("logical and physical pin directions differ"));
    }
    None
}

/// Checks every pin binding.
pub(crate) fn validate_pin_bindings(
    graph: &UnifiedGraph<'_>,
    constraints: &PlacementConstraints,
) -> (result: Result<(), PnrError>)
    requires
        graph.wf(),
        constraints.wf(),
    ensures
        match result {
            Ok(()) => pin_bindings_valid(*graph, constraints),
            Err(error) => !pin_bindings_valid(*graph, constraints) && binding_defect(
                *graph,
                constraints,
                error,
            ),
        },
{
    let bindings = &constraints.pin_bindings;
    let mut index: usize = 0;
    while index < bindings.len()
        invariant
            index <= bindings.ordered().len(),
            *bindings == constraints.pin_bindings,
            bindings.wf(),
            graph.wf(),
            forall|i: int|
                0 <= i < index ==> binding_fault(
                    *graph,
                    (#[trigger] bindings.ordered()[i]).pin,
                    bindings.ordered()[i].bel,
                    bindings@[bindings.ordered()[i]],
                ) is None,
        decreases bindings.ordered().len() - index,
    {
        let choice = bindings.key_at(index);
        let bel_pin = *bindings.value_at(index);
        proof {
            bindings.entry(index as int);
            assert(PinChoice { pin: choice.pin, bel: choice.bel } == choice);
        }
        if let Some(reason) = check_binding(graph, choice.pin, choice.bel, bel_pin) {
            return Err(
                PnrError::InvalidPinBinding { pin: choice.pin, bel: choice.bel, reason },
            );
        }
        index = index + 1;
    }
    proof {
        assert forall|c: PinChoice| #[trigger]
            constraints.pin_bindings@.contains_key(c) implies binding_fault(
            *graph,
            c.pin,
            c.bel,
            constraints.pin_bindings@[c],
        ) is None by {
            let i = bindings.key_index(c);
            assert(bindings.ordered()[i] == c);
        }
    }
    let names = &constraints.pin_name_bindings;
    let mut at: usize = 0;
    while at < names.len()
        invariant
            at <= names.ordered().len(),
            *names == constraints.pin_name_bindings,
            names.wf(),
            graph.wf(),
            forall|i: int|
                0 <= i < at ==> name_fault(
                    *graph,
                    #[trigger] names.ordered()[i],
                    names@[names.ordered()[i]]@,
                ) is None,
        decreases names.ordered().len() - at,
    {
        let pin = names.key_at(at);
        let name = names.value_at(at);
        proof {
            names.entry(at as int);
            reveal_strlit("");
        }
        if pin.0 >= graph.design().pins.len() {
            return Err(
                PnrError::InvalidPinNameBinding {
                    pin,
                    name: crate::text::joined(name.as_str(), "", ""),
                    reason: String::from_str("unknown logical pin"),
                },
            );
        }
        if name.as_str().unicode_len() == 0 {
            return Err(
                PnrError::InvalidPinNameBinding {
                    pin,
                    name: crate::text::joined(name.as_str(), "", ""),
                    reason: String::from_str("physical pin name must not be empty"),
                },
            );
        }
        at = at + 1;
    }
    proof {
        assert forall|p: CellPinId| #[trigger]
            constraints.pin_name_bindings@.contains_key(p) implies name_fault(
            *graph,
            p,
            constraints.pin_name_bindings@[p]@,
        ) is None by {
            let i = names.key_index(p);
            assert(names.ordered()[i] == p);
        }
    }
    Ok(())
}

/// Physical pin that a logical pin takes on a BEL.
pub(crate) fn candidate_bel_pin(
    graph: &UnifiedGraph<'_>,
    constraints: &PlacementConstraints,
    pin: CellPinId,
    bel: BelId,
) -> (result: Option<BelPinId>)
    requires
        graph.wf(),
        constraints.wf(),
    ensures
        result == choice_pin(*graph, constraints, pin, bel),
{
    if let Some(bel_pin) = constraints.pin_bindings.get(PinChoice { pin, bel }) {
        return Some(*bel_pin);
    }
    if let Some(name) = constraints.pin_name_bindings.get(pin) {
        return graph.physical_pin_by_name(pin, bel, name);
    }
    match graph.bound_bel_pin(pin, bel) {
        Ok(found) => Some(found),
        Err(_) => None,
    }
}

/// Every pin binding names a pin of the design.
pub open spec fn bindings_in_range(
    graph: UnifiedGraph<'_>,
    constraints: &PlacementConstraints,
) -> bool {
    &&& forall|c: PinChoice| #[trigger]
        constraints.pin_bindings@.contains_key(c) ==> c.pin.0 < graph.design.pins@.len()
    &&& forall|p: CellPinId| #[trigger]
        constraints.pin_name_bindings@.contains_key(p) ==> p.0 < graph.design.pins@.len()
}

/// Sound bindings are in range.
pub proof fn lemma_valid_in_range(graph: UnifiedGraph<'_>, constraints: &PlacementConstraints)
    requires
        pin_bindings_valid(graph, constraints),
    ensures
        bindings_in_range(graph, constraints),
{
    assert forall|c: PinChoice| #[trigger] constraints.pin_bindings@.contains_key(c) implies c.pin.0
        < graph.design.pins@.len() by {
        assert(binding_fault(graph, c.pin, c.bel, constraints.pin_bindings@[c]) is None);
    }
    assert forall|p: CellPinId| #[trigger] constraints.pin_name_bindings@.contains_key(p) implies p.0
        < graph.design.pins@.len() by {
        assert(name_fault(graph, p, constraints.pin_name_bindings@[p]@) is None);
    }
}

/// A chosen physical pin is one of the device.
pub proof fn lemma_choice_pin_range(
    graph: UnifiedGraph<'_>,
    constraints: &PlacementConstraints,
    pin: CellPinId,
    bel: BelId,
)
    requires
        graph.wf(),
        pin_bindings_valid(graph, constraints),
    ensures
        choice_pin(graph, constraints, pin, bel) matches Some(found) ==> found.0
            < graph.device.bel_pins@.len(),
{
    let choice = PinChoice { pin, bel };
    if constraints.pin_bindings@.contains_key(choice) {
        assert(binding_fault(graph, pin, bel, constraints.pin_bindings@[choice]) is None);
    } else if bel.0 < graph.device.bels@.len() && pin.0 < graph.design.pins@.len() {
        let name = if constraints.pin_name_bindings@.contains_key(pin) {
            constraints.pin_name_bindings@[pin]@
        } else {
            graph.design.pins@[pin.0 as int].name@
        };
        let pins = graph.device.bels@[bel.0 as int].pins@;
        let direction = graph.design.pins@[pin.0 as int].direction;
        graph.lemma_first_match(pins, name, direction);
        if let Some(found) = graph.first_match(pins, name, direction) {
            let k = pins.index_of(found);
            assert(graph.device.bels@[bel.0 as int].pins@[k] == found);
        }
    }
}

/// Wire that a logical pin takes on a BEL.
pub(crate) fn candidate_pin_wire(
    graph: &UnifiedGraph<'_>,
    constraints: &PlacementConstraints,
    pin: CellPinId,
    bel: BelId,
) -> (result: Option<WireId>)
    requires
        graph.wf(),
        constraints.wf(),
        bindings_in_range(*graph, constraints),
    ensures
        result == choice_wire(*graph, constraints, pin, bel),
        result matches Some(wire) ==> wire.0 < graph.device.wires@.len(),
{
    match candidate_bel_pin(graph, constraints, pin, bel) {
        Some(found) => if found.0 < graph.device().bel_pins.len() {
            Some(graph.device().bel_pins[found.0].wire)
        } else {
            None
        },
        None => None,
    }
}

/// The BEL has the class of the cell and a pin for each of the cell's.
pub open spec fn can_hold(
    graph: UnifiedGraph<'_>,
    constraints: &PlacementConstraints,
    cell: CellId,
    bel: BelId,
) -> bool {
    &&& bel.0 < graph.device.bels@.len()
    &&& graph.device.bels@[bel.0 as int].kind == graph.design.cells@[cell.0 as int].kind
    &&& forall|k: int|
        0 <= k < graph.design.cells@[cell.0 as int].pins@.len() ==> choice_pin(
            graph,
            constraints,
            #[trigger] graph.design.cells@[cell.0 as int].pins@[k],
            bel,
        ) is Some
}

/// The list names exactly the BELs that can hold the cell, in increasing order.
pub open spec fn are_candidates(
    graph: UnifiedGraph<'_>,
    constraints: &PlacementConstraints,
    cell: CellId,
    list: Seq<BelId>,
) -> bool {
    &&& increasing(list)
    &&& forall|b: BelId| #[trigger] list.contains(b) <==> can_hold(graph, constraints, cell, b)
}

/// Whether the BEL has a pin for each of the cell's.
fn offers_pins(
    graph: &UnifiedGraph<'_>,
    constraints: &PlacementConstraints,
    cell: CellId,
    bel: BelId,
) -> (result: bool)
    requires
        graph.wf(),
        constraints.wf(),
        cell.0 < graph.design.cells@.len(),
    ensures
        result == forall|k: int|
            0 <= k < graph.design.cells@[cell.0 as int].pins@.len() ==> choice_pin(
                *graph,
                constraints,
                #[trigger] graph.design.cells@[cell.0 as int].pins@[k],
                bel,
            ) is Some,
{
    let pins = &graph.design().cells[cell.0].pins;
    let mut index: usize = 0;
    while index < pins.len()
        invariant
            index <= pins@.len(),
            graph.wf(),
            constraints.wf(),
            cell.0 < graph.design.cells@.len(),
            pins@ == graph.design.cells@[cell.0 as int].pins@,
            forall|k: int|
                0 <= k < index ==> choice_pin(
                    *graph,
                    constraints,
                    #[trigger] graph.design.cells@[cell.0 as int].pins@[k],
                    bel,
                ) is Some,
        decreases pins@.len() - index,
    {
        if candidate_bel_pin(graph, constraints, pins[index], bel).is_none() {
            assert(choice_pin(
                *graph,
                constraints,
                graph.design.cells@[cell.0 as int].pins@[index as int],
                bel,
            ) is None);
            return false;
        }
        index = index + 1;
    }
    true
}

/// BELs that can hold a cell, in increasing order.
pub(crate) fn placement_candidates(
    graph: &UnifiedGraph<'_>,
    constraints: &PlacementConstraints,
    cell: CellId,
) -> (result: Result<Vec<BelId>, PnrError>)
    requires
        graph.wf(),
        constraints.wf(),
        pin_bindings_valid(*graph, constraints),
    ensures
        match result {
            Ok(list) => cell.0 < graph.design.cells@.len() && are_candidates(
                *graph,
                constraints,
                cell,
                list@,
            ),
            Err(error) => cell.0 >= graph.design.cells@.len() && error == PnrError::Model(
                ModelError::UnknownCell(cell),
            ),
        },
{
    if cell.0 >= graph.design().cells.len() {
        return Err(PnrError::Model(ModelError::UnknownCell(cell)));
    }
    let bels = graph.device().bels_of_kind(graph.design().cells[cell.0].kind);
    let mut list: Vec<BelId> = Vec::new();
    let mut index: usize = 0;
    while index < bels.len()
        invariant
            index <= bels@.len(),
            graph.wf(),
            constraints.wf(),
            cell.0 < graph.design.cells@.len(),
            increasing(bels@),
            increasing(list@),
            forall|b: BelId|
                #[trigger] bels@.contains(b) <==> b.0 < graph.device.bels@.len()
                    && graph.device.bels@[b.0 as int].kind
                    == graph.design.cells@[cell.0 as int].kind,
            forall|i: int|
                0 <= i < list@.len() ==> exists|j: int|
                    0 <= j < index && bels@[j] == #[trigger] list@[i],
            forall|b: BelId|
                #[trigger] list@.contains(b) <==> bels@.take(index as int).contains(b) && can_hold(
                    *graph,
                    constraints,
                    cell,
                    b,
                ),
        decreases bels@.len() - index,
    {
        let bel = bels[index];
        assert(bels@.contains(bel));
        let ghost before = list@;
        let fits = offers_pins(graph, constraints, cell, bel);
        assert(fits == can_hold(*graph, constraints, cell, bel));
        if fits {
            list.push(bel);
        }
        proof {
            let shorter = bels@.take(index as int);
            let longer = bels@.take(index + 1);
            assert(longer =~= shorter.push(bel));
            assert forall|i: int, j: int| 0 <= i < j < list@.len() implies (
            #[trigger] list@[i]).0 < (#[trigger] list@[j]).0 by {
                if j < before.len() {
                    assert(before[i].0 < before[j].0);
                } else {
                    let k = choose|k: int| 0 <= k < index && bels@[k] == before[i];
                    assert(bels@[k].0 < bels@[index as int].0);
                }
            }
            assert forall|i: int| 0 <= i < list@.len() implies exists|j: int|
                0 <= j < index + 1 && bels@[j] == #[trigger] list@[i] by {
                if i < before.len() {
                    let k = choose|k: int| 0 <= k < index && bels@[k] == before[i];
                    assert(bels@[k] == list@[i]);
                } else {
                    assert(bels@[index as int] == list@[i]);
                }
            }
            assert forall|b: BelId|
                #[trigger] list@.contains(b) <==> longer.contains(b) && can_hold(
                    *graph,
                    constraints,
                    cell,
                    b,
                ) by {
                assert(before.contains(b) <==> shorter.contains(b) && can_hold(
                    *graph,
                    constraints,
                    cell,
                    b,
                ));
                assert(longer[index as int] == bel);
                if shorter.contains(b) {
                    let k = shorter.index_of(b);
                    assert(longer[k] == b);
                }
                if longer.contains(b) && b != bel {
                    let k = longer.index_of(b);
                    assert(shorter[k] == b);
                }
                if before.contains(b) {
                    let k = before.index_of(b);
                    assert(list@[k] == b);
                }
                if fits {
                    assert(list@[before.len() as int] == bel);
                }
                if list@.contains(b) && b != bel {
                    let k = list@.index_of(b);
                    assert(before[k] == b);
                }
            }
        }
        index = index + 1;
    }
    proof {
        assert(bels@.take(index as int) =~= bels@);
        assert forall|b: BelId| #[trigger] list@.contains(b) <==> can_hold(
            *graph,
            constraints,
            cell,
            b,
        ) by {
            assert(bels@.contains(b) <==> b.0 < graph.device.bels@.len()
                && graph.device.bels@[b.0 as int].kind
                == graph.design.cells@[cell.0 as int].kind);
        }
    }
    Ok(list)
}

/// Name and direction that a physical pin must have.
#[derive(Clone, Debug, PartialEq, Eq)]
pub struct PinShape {
    /// Physical name.
    pub name: String,
    /// Signal direction.
    pub direction: PinDirection,
}

/// Cells of one class that ask for the same pins, and the BELs that can hold them.
#[derive(Clone, Debug, PartialEq, Eq)]
pub struct CandidateEntry {
    /// Class of the cells.
    pub kind: ResourceKind,
    /// Pins that the cells ask for.
    pub pins: Vec<PinShape>,
    /// BELs that can hold them, in increasing order.
    pub candidates: Arc<Vec<BelId>>,
}

/// The BEL has the class and a pin of each shape.
pub open spec fn offers_shape(
    graph: UnifiedGraph<'_>,
    kind: ResourceKind,
    pins: Seq<PinShape>,
    bel: BelId,
) -> bool {
    &&& bel.0 < graph.device.bels@.len()
    &&& graph.device.bels@[bel.0 as int].kind == kind
    &&& forall|k: int|
        0 <= k < pins.len() ==> graph.first_match(
            graph.device.bels@[bel.0 as int].pins@,
            (#[trigger] pins[k]).name@,
            pins[k].direction,
        ) is Some
}

impl CandidateEntry {
    /// The entry names exactly the BELs that offer its shape.
    pub open spec fn holds(&self, graph: UnifiedGraph<'_>) -> bool {
        &&& increasing(self.candidates@)
        &&& forall|b: BelId| #[trigger]
            self.candidates@.contains(b) <==> offers_shape(graph, self.kind, self.pins@, b)
    }

    /// The entry is of the class and asks for these pins.
    pub open spec fn asks_for(&self, kind: ResourceKind, pins: Seq<PinShape>) -> bool {
        &&& self.kind == kind
        &&& shapes_alike(self.pins@, pins)
    }

    /// Whether the entry is of the class and asks for these pins.
    fn matches(&self, kind: ResourceKind, pins: &Vec<PinShape>) -> (result: bool)
        ensures
            result == self.asks_for(kind, pins@),
    {
        self.kind == kind && same_shapes(&self.pins, pins)
    }
}

/// Both ask for the same pins in the same order.
pub open spec fn shapes_alike(a: Seq<PinShape>, b: Seq<PinShape>) -> bool {
    &&& a.len() == b.len()
    &&& forall|k: int|
        0 <= k < b.len() ==> (#[trigger] a[k]).name@ == b[k].name@ && a[k].direction
            == b[k].direction
}

/// Whether both ask for the same pins in the same order.
pub(crate) fn same_shapes(a: &Vec<PinShape>, b: &Vec<PinShape>) -> (result: bool)
    ensures
        result == shapes_alike(a@, b@),
{
    if a.len() != b.len() {
        return false;
    }
    let mut index: usize = 0;
    while index < b.len()
        invariant
            index <= b@.len(),
            a@.len() == b@.len(),
            forall|k: int|
                0 <= k < index ==> (#[trigger] a@[k]).name@ == b@[k].name@ && a@[k].direction
                    == b@[k].direction,
        decreases b@.len() - index,
    {
        if a[index].name != b[index].name || a[index].direction != b[index].direction {
            assert(a@[index as int].name@ != b@[index as int].name@ || a@[index as int].direction
                != b@[index as int].direction);
            return false;
        }
        index = index + 1;
    }
    true
}

/// Candidates of the shapes that were asked for.
#[derive(Clone, Debug)]
pub struct CandidateCache {
    /// One entry of each shape.
    pub entries: Vec<CandidateEntry>,
}

/// The shapes are those that the cell's pins ask for.
pub open spec fn shapes_of(
    graph: UnifiedGraph<'_>,
    constraints: &PlacementConstraints,
    cell: CellId,
    shapes: Seq<PinShape>,
) -> bool {
    let pins = graph.design.cells@[cell.0 as int].pins@;
    &&& shapes.len() == pins.len()
    &&& forall|k: int|
        0 <= k < pins.len() ==> {
            let pin = #[trigger] pins[k];
            &&& shapes[k].direction == graph.design.pins@[pin.0 as int].direction
            &&& shapes[k].name@ == if constraints.pin_name_bindings@.contains_key(pin) {
                constraints.pin_name_bindings@[pin]@
            } else {
                graph.design.pins@[pin.0 as int].name@
            }
        }
}

/// Without bindings of its own on single BELs, a cell is held where its shape is offered.
pub(crate) proof fn lemma_shape_holds(
    graph: UnifiedGraph<'_>,
    constraints: &PlacementConstraints,
    cell: CellId,
    shapes: Seq<PinShape>,
    bel: BelId,
)
    requires
        graph.wf(),
        cell.0 < graph.design.cells@.len(),
        shapes_of(graph, constraints, cell, shapes),
        forall|k: int, b: BelId|
            #![trigger constraints.pin_bindings@.contains_key(
                PinChoice { pin: graph.design.cells@[cell.0 as int].pins@[k], bel: b },
            )]
            0 <= k < graph.design.cells@[cell.0 as int].pins@.len()
                ==> !constraints.pin_bindings@.contains_key(
                PinChoice { pin: graph.design.cells@[cell.0 as int].pins@[k], bel: b },
            ),
    ensures
        can_hold(graph, constraints, cell, bel) == offers_shape(
            graph,
            graph.design.cells@[cell.0 as int].kind,
            shapes,
            bel,
        ),
{
    let pins = graph.design.cells@[cell.0 as int].pins@;
    if bel.0 < graph.device.bels@.len() {
        assert forall|k: int| 0 <= k < pins.len() implies (choice_pin(
            graph,
            constraints,
            #[trigger] pins[k],
            bel,
        ) is Some) == (graph.first_match(
            graph.device.bels@[bel.0 as int].pins@,
            shapes[k].name@,
            shapes[k].direction,
        ) is Some) by {
            let pin = graph.design.cells@[cell.0 as int].pins@[k];
            assert(!constraints.pin_bindings@.contains_key(PinChoice { pin, bel }));
        }
        if can_hold(graph, constraints, cell, bel) {
            assert forall|k: int| 0 <= k < shapes.len() implies graph.first_match(
                graph.device.bels@[bel.0 as int].pins@,
                (#[trigger] shapes[k]).name@,
                shapes[k].direction,
            ) is Some by {
                assert(choice_pin(graph, constraints, pins[k], bel) is Some);
            }
        }
        if offers_shape(graph, graph.design.cells@[cell.0 as int].kind, shapes, bel) {
            assert forall|k: int| 0 <= k < pins.len() implies choice_pin(
                graph,
                constraints,
                #[trigger] graph.design.cells@[cell.0 as int].pins@[k],
                bel,
            ) is Some by {
                assert(shapes[k].direction == shapes[k].direction);
                assert(choice_pin(graph, constraints, pins[k], bel) is Some);
            }
        }
    }
}

/// Whether some binding names a pin of the cell on a single BEL.
pub(crate) fn has_own_binding(
    graph: &UnifiedGraph<'_>,
    constraints: &PlacementConstraints,
    cell: CellId,
) -> (result: bool)
    requires
        graph.wf(),
        constraints.wf(),
        cell.0 < graph.design.cells@.len(),
    ensures
        result ==> exists|k: int, b: BelId|
            #![trigger constraints.pin_bindings@.contains_key(
                PinChoice { pin: graph.design.cells@[cell.0 as int].pins@[k], bel: b },
            )]
            0 <= k < graph.design.cells@[cell.0 as int].pins@.len()
                && constraints.pin_bindings@.contains_key(
                PinChoice { pin: graph.design.cells@[cell.0 as int].pins@[k], bel: b },
            ),
        !result ==> forall|k: int, b: BelId|
            #![trigger constraints.pin_bindings@.contains_key(
                PinChoice { pin: graph.design.cells@[cell.0 as int].pins@[k], bel: b },
            )]
            0 <= k < graph.design.cells@[cell.0 as int].pins@.len()
                ==> !constraints.pin_bindings@.contains_key(
                PinChoice { pin: graph.design.cells@[cell.0 as int].pins@[k], bel: b },
            ),
{
    let bindings = &constraints.pin_bindings;
    let mut index: usize = 0;
    while index < bindings.len()
        invariant
            index <= bindings.ordered().len(),
            *bindings == constraints.pin_bindings,
            bindings.wf(),
            graph.wf(),
            cell.0 < graph.design.cells@.len(),
            forall|i: int|
                0 <= i < index ==> (#[trigger] bindings.ordered()[i]).pin.0
                    < graph.design.pins@.len() ==> graph.design.pins@[bindings.ordered()[i].pin.0 as int].cell
                    != cell,
        decreases bindings.ordered().len() - index,
    {
        let pin = bindings.key_at(index).pin;
        if pin.0 < graph.design().pins.len() && graph.design().pins[pin.0].cell == cell {
            proof {
                bindings.entry(index as int);
                let choice = bindings.ordered()[index as int];
                let pins = graph.design.cells@[cell.0 as int].pins@;
                assert(pins.contains(pin));
                let k = pins.index_of(pin);
                assert(constraints.pin_bindings@.contains_key(
                    PinChoice {
                        pin: graph.design.cells@[cell.0 as int].pins@[k],
                        bel: choice.bel,
                    },
                ));
            }
            return true;
        }
        index = index + 1;
    }
    proof {
        assert forall|k: int, b: BelId|
            #![trigger constraints.pin_bindings@.contains_key(
                PinChoice { pin: graph.design.cells@[cell.0 as int].pins@[k], bel: b },
            )]
            0 <= k < graph.design.cells@[cell.0 as int].pins@.len() implies !constraints.pin_bindings@.contains_key(
        PinChoice { pin: graph.design.cells@[cell.0 as int].pins@[k], bel: b }) by {
            let pin = graph.design.cells@[cell.0 as int].pins@[k];
            let choice = PinChoice { pin, bel: b };
            if constraints.pin_bindings@.contains_key(choice) {
                let i = bindings.key_index(choice);
                assert(bindings.ordered()[i].pin == pin);
                assert(graph.design.pins@[pin.0 as int].cell == cell);
            }
        }
    }
    false
}

/// Shapes that the cell's pins ask for.
pub(crate) fn find_shapes(
    graph: &UnifiedGraph<'_>,
    constraints: &PlacementConstraints,
    cell: CellId,
) -> (result: Vec<PinShape>)
    requires
        graph.wf(),
        constraints.wf(),
        cell.0 < graph.design.cells@.len(),
    ensures
        shapes_of(*graph, constraints, cell, result@),
{
    let pins = &graph.design().cells[cell.0].pins;
    let mut shapes: Vec<PinShape> = Vec::new();
    let mut index: usize = 0;
    while index < pins.len()
        invariant
            index <= pins@.len(),
            graph.wf(),
            constraints.wf(),
            cell.0 < graph.design.cells@.len(),
            pins@ == graph.design.cells@[cell.0 as int].pins@,
            shapes@.len() == index,
            forall|k: int|
                0 <= k < index ==> {
                    let pin = #[trigger] pins@[k];
                    &&& shapes@[k].direction == graph.design.pins@[pin.0 as int].direction
                    &&& shapes@[k].name@ == if constraints.pin_name_bindings@.contains_key(pin) {
                        constraints.pin_name_bindings@[pin]@
                    } else {
                        graph.design.pins@[pin.0 as int].name@
                    }
                },
        decreases pins@.len() - index,
    {
        let pin = pins[index];
        assert(graph.design.cells@[cell.0 as int].pins@[index as int] == pin);
        let logical = &graph.design().pins[pin.0];
        let name = match constraints.pin_name_bindings.get(pin) {
            Some(name) => crate::text::joined(name.as_str(), "", ""),
            None => crate::text::joined(logical.name.as_str(), "", ""),
        };
        proof {
            reveal_strlit("");
            assert(name@ =~= if constraints.pin_name_bindings@.contains_key(pin) {
                constraints.pin_name_bindings@[pin]@
            } else {
                graph.design.pins@[pin.0 as int].name@
            });
        }
        shapes.push(PinShape { name, direction: logical.direction });
        index = index + 1;
    }
    shapes
}

impl CandidateCache {
    /// Every entry is right for the device.
    pub open spec fn holds(&self, graph: UnifiedGraph<'_>) -> bool {
        forall|i: int| 0 <= i < self.entries@.len() ==> (#[trigger] self.entries@[i]).holds(graph)
    }

    /// The empty cache.
    pub fn new() -> (result: Self)
        ensures
            result.entries@.len() == 0,
    {
        CandidateCache { entries: Vec::new() }
    }

    /// The first entry that asks for the shape.
    pub open spec fn is_first(
        &self,
        kind: ResourceKind,
        pins: Seq<PinShape>,
        index: int,
    ) -> bool {
        &&& 0 <= index < self.entries@.len()
        &&& self.entries@[index].asks_for(kind, pins)
        &&& forall|i: int| 0 <= i < index ==> !(#[trigger] self.entries@[i]).asks_for(kind, pins)
    }

    /// Candidates of a shape, if it was asked for.
    fn find(&self, kind: ResourceKind, pins: &Vec<PinShape>, Ghost(graph): Ghost<UnifiedGraph<'_>>) -> (result:
        Option<Arc<Vec<BelId>>>)
        requires
            self.holds(graph),
        ensures
            match result {
                Some(list) => {
                    &&& exists|i: int| #[trigger]
                        self.is_first(kind, pins@, i) && list == self.entries@[i].candidates
                    &&& increasing(list@)
                    &&& forall|b: BelId| #[trigger]
                        list@.contains(b) <==> offers_shape(graph, kind, pins@, b)
                },
                None => forall|i: int|
                    0 <= i < self.entries@.len() ==> !(#[trigger] self.entries@[i]).asks_for(
                        kind,
                        pins@,
                    ),
            },
    {
        let mut index: usize = 0;
        while index < self.entries.len()
            invariant
                index <= self.entries@.len(),
                self.holds(graph),
                forall|i: int|
                    0 <= i < index ==> !(#[trigger] self.entries@[i]).asks_for(kind, pins@),
            decreases self.entries@.len() - index,
        {
            if self.entries[index].matches(kind, pins) {
                let ghost entry = self.entries@[index as int];
                proof {
                    assert(self.is_first(kind, pins@, index as int));
                    assert(entry.holds(graph));
                    assert forall|b: BelId| offers_shape(graph, kind, entry.pins@, b)
                        == offers_shape(graph, kind, pins@, b) by {
                        if offers_shape(graph, kind, entry.pins@, b) {
                            assert forall|k: int| 0 <= k < pins@.len() implies graph.first_match(
                                graph.device.bels@[b.0 as int].pins@,
                                (#[trigger] pins@[k]).name@,
                                pins@[k].direction,
                            ) is Some by {
                                assert(entry.pins@[k].name@ == pins@[k].name@);
                            }
                        }
                        if offers_shape(graph, kind, pins@, b) {
                            assert forall|k: int| 0 <= k < entry.pins@.len() implies graph.first_match(
                                graph.device.bels@[b.0 as int].pins@,
                                (#[trigger] entry.pins@[k]).name@,
                                entry.pins@[k].direction,
                            ) is Some by {
                                assert(entry.pins@[k].name@ == pins@[k].name@);
                            }
                        }
                    }
                    assert forall|b: BelId| #[trigger]
                        entry.candidates@.contains(b) <==> offers_shape(graph, kind, pins@, b) by {
                        assert(offers_shape(graph, kind, entry.pins@, b) == offers_shape(
                            graph,
                            kind,
                            pins@,
                            b,
                        ));
                    }
                }
                return Some(share(&self.entries[index].candidates));
            }
            index = index + 1;
        }
        None
    }
}

/// BELs that can hold a cell, shared by all cells of one shape.
pub(crate) fn cached_placement_candidates(
    graph: &UnifiedGraph<'_>,
    constraints: &PlacementConstraints,
    cell: CellId,
    cache: &mut CandidateCache,
) -> (result: Result<Arc<Vec<BelId>>, PnrError>)
    requires
        graph.wf(),
        constraints.wf(),
        pin_bindings_valid(*graph, constraints),
        old(cache).holds(*graph),
    ensures
        final(cache).holds(*graph),
        match result {
            Ok(list) => cell.0 < graph.design.cells@.len() && are_candidates(
                *graph,
                constraints,
                cell,
                list@,
            ),
            Err(error) => cell.0 >= graph.design.cells@.len() && error == PnrError::Model(
                ModelError::UnknownCell(cell),
            ),
        },
{
    if cell.0 >= graph.design().cells.len() {
        return Err(PnrError::Model(ModelError::UnknownCell(cell)));
    }
    if has_own_binding(graph, constraints, cell) {
        return match placement_candidates(graph, constraints, cell) {
            Ok(list) => Ok(Arc::new(list)),
            Err(error) => Err(error),
        };
    }
    let kind = graph.design().cells[cell.0].kind;
    let pins = find_shapes(graph, constraints, cell);
    proof {
        assert forall|b: BelId| can_hold(*graph, constraints, cell, b) == #[trigger] offers_shape(
            *graph,
            kind,
            pins@,
            b,
        ) by {
            lemma_shape_holds(*graph, constraints, cell, pins@, b);
        }
    }
    if let Some(list) = cache.find(kind, &pins, Ghost(*graph)) {
        return Ok(list);
    }
    let candidates = match placement_candidates(graph, constraints, cell) {
        Ok(list) => Arc::new(list),
        Err(error) => {
            return Err(error);
        },
    };
    cache.entries.push(CandidateEntry { kind, pins, candidates: share(&candidates) });
    Ok(candidates)
}

} // verus!
