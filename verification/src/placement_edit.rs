//! Placements from caller-selected bindings, and small changes of placements.

use vstd::prelude::*;
use vstd::string::*;

use crate::candidates::{
    binding_defect, bindings_in_range, can_hold, candidate_bel_pin, choice_pin,
    lemma_valid_in_range, pin_bindings_valid, validate_pin_bindings,
};
use crate::device::{Device, UnifiedGraph};
use crate::error::PnrError;
use crate::finish::{
    finish_placement, finish_refused, group_row, is_finished, is_overridden, overrides_resolve,
    placed_pin, refuse_placement,
};
use crate::model::{BelId, CellId, CellPinId, Design, PinChoice};
use crate::ordered::{copy_keys, same_keys};
use crate::placement::Placement;
use crate::placement_constraints::{PlacementConstraints, PlacementGroup};
use crate::text::{numbered, twice_numbered};
use crate::units::{names_rule, shared_rules_valid, validate_shared_resources};

verus! {

/// Every binding names a pin of the design, and where a connected pin takes one,
/// its physical pin is on the device.
pub open spec fn taken_pins_known(
    graph: UnifiedGraph<'_>,
    constraints: &PlacementConstraints,
    bindings: Seq<BelId>,
) -> bool {
    &&& bindings_in_range(graph, constraints)
    &&& forall|c: PinChoice| #[trigger]
        constraints.pin_bindings@.contains_key(c) && graph.design.pins@[c.pin.0 as int].net is Some
            && bindings[graph.design.pins@[c.pin.0 as int].cell.0 as int] == c.bel
            ==> constraints.pin_bindings@[c].0 < graph.device.bel_pins@.len()
}

/// Text on a binding table of the wrong length.
fn wrong_length(expected: usize, received: usize) -> (result: PnrError)
    ensures
        result is InvalidPlacement,
{
    refuse_placement(
        twice_numbered(
            "expected ",
            expected as u64,
            " cell bindings, received ",
            received as u64,
            "",
        ),
    )
}

/// Re-resolves target-selected physical pins without changing any BEL.
///
/// This is the cheap path for a packing ECO that only changes pin-name
/// bindings while preserving an already legal placement. Callers must ensure
/// the new constraints do not add a stricter placement group; releasing a
/// dedicated edge satisfies that requirement.
///
/// # Errors
///
/// Returns an error when the placement has the wrong number of cells or a new
/// physical pin name is unavailable on the existing BEL.
pub fn rebind_placement_pins(
    design: &Design,
    device: &Device,
    constraints: &PlacementConstraints,
    placement: &Placement,
) -> (result: Result<Placement, PnrError>)
    requires
        UnifiedGraph::of(design, device).wf(),
        constraints.wf(),
        placement.bindings@.len() == design.cells@.len() ==> taken_pins_known(
            UnifiedGraph::of(design, device),
            constraints,
            placement.bindings@,
        ),
    ensures
        match result {
            Ok(rebound) => placement.bindings@.len() == design.cells@.len() && is_finished(
                UnifiedGraph::of(design, device),
                constraints,
                placement.bindings@,
                rebound,
            ),
            Err(error) => if placement.bindings@.len() != design.cells@.len() {
                error is InvalidPlacement
            } else {
                finish_refused(
                    UnifiedGraph::of(design, device),
                    constraints,
                    placement.bindings@,
                    error,
                )
            },
        },
{
    if placement.bindings.len() != design.cells.len() {
        return Err(wrong_length(design.cells.len(), placement.bindings.len()));
    }
    let graph = UnifiedGraph::new(design, device);
    let bindings = copy_keys(&placement.bindings);
    finish_placement(&graph, constraints, bindings)
}

/// Every cell stands on a BEL of its own that can hold it.
pub open spec fn bindings_fit(
    graph: UnifiedGraph<'_>,
    constraints: &PlacementConstraints,
    bindings: Seq<BelId>,
) -> bool {
    &&& bindings.len() == graph.design.cells@.len()
    &&& bindings.no_duplicates()
    &&& forall|c: int|
        0 <= c < bindings.len() ==> can_hold(
            graph,
            constraints,
            CellId(c as usize),
            #[trigger] bindings[c],
        )
}

/// On fitting bindings every pin has a physical pin.
pub proof fn lemma_fit_binds(
    graph: UnifiedGraph<'_>,
    constraints: &PlacementConstraints,
    bindings: Seq<BelId>,
)
    requires
        graph.wf(),
        bindings_fit(graph, constraints, bindings),
    ensures
        overrides_resolve(graph, constraints, bindings),
{
    assert forall|p: CellPinId| p.0 < graph.design.pins@.len() implies #[trigger] placed_pin(
        graph,
        constraints,
        bindings,
        p,
    ) is Some by {
        assert(graph.design.cells.len() == graph.design.cells@.len());
        let cell = graph.design.pins@[p.0 as int].cell;
        assert(CellPinId(p.0 as int as usize) == p);
        let pins = graph.design.cells@[cell.0 as int].pins@;
        assert(pins.contains(p));
        let k = pins.index_of(p);
        assert(can_hold(
            graph,
            constraints,
            CellId(cell.0 as int as usize),
            bindings[cell.0 as int],
        ));
        assert(choice_pin(
            graph,
            constraints,
            graph.design.cells@[cell.0 as int].pins@[k],
            bindings[cell.0 as int],
        ) is Some);
    }
    assert forall|p: CellPinId| #[trigger]
        is_overridden(graph, constraints, bindings, p) implies placed_pin(
        graph,
        constraints,
        bindings,
        p,
    ) is Some by {}
}

/// Whether the BEL can hold the cell, with a text where it cannot.
fn check_holder(
    graph: &UnifiedGraph<'_>,
    constraints: &PlacementConstraints,
    cell: CellId,
    bel: BelId,
) -> (result: Result<(), PnrError>)
    requires
        graph.wf(),
        constraints.wf(),
        cell.0 < graph.design.cells@.len(),
        bel.0 < graph.device.bels@.len(),
        graph.design.cells@[cell.0 as int].kind == graph.device.bels@[bel.0 as int].kind,
    ensures
        match result {
            Ok(()) => can_hold(*graph, constraints, cell, bel),
            Err(error) => !can_hold(*graph, constraints, cell, bel) && error is InvalidPlacement,
        },
{
    let logical = &graph.design().cells[cell.0];
    let mut index: usize = 0;
    while index < logical.pins.len()
        invariant
            index <= logical.pins@.len(),
            graph.wf(),
            constraints.wf(),
            cell.0 < graph.design.cells@.len(),
            *logical == graph.design.cells@[cell.0 as int],
            forall|k: int|
                0 <= k < index ==> choice_pin(
                    *graph,
                    constraints,
                    #[trigger] graph.design.cells@[cell.0 as int].pins@[k],
                    bel,
                ) is Some,
        decreases logical.pins@.len() - index,
    {
        let pin = logical.pins[index];
        assert(graph.design.cells@[cell.0 as int].pins@[index as int] == pin);
        if candidate_bel_pin(graph, constraints, pin, bel).is_none() {
            let mut text = numbered("BEL ", bel.0, " has no compatible physical pin for cell ");
            text.append(logical.name.as_str());
            text.append(" pin ");
            text.append(graph.design().pins[pin.0].name.as_str());
            return Err(refuse_placement(text));
        }
        index = index + 1;
    }
    Ok(())
}

/// Checks that every cell stands on a BEL of its own that can hold it.
fn validate_bindings(
    graph: &UnifiedGraph<'_>,
    constraints: &PlacementConstraints,
    bindings: &Vec<BelId>,
) -> (result: Result<(), PnrError>)
    requires
        graph.wf(),
        constraints.wf(),
        bindings@.len() == graph.design.cells@.len(),
    ensures
        match result {
            Ok(()) => bindings_fit(*graph, constraints, bindings@),
            Err(error) => !bindings_fit(*graph, constraints, bindings@) && error
                is InvalidPlacement,
        },
{
    let device = graph.device();
    let mut occupied: Vec<bool> = Vec::new();
    let mut filler: usize = 0;
    while filler < device.bels.len()
        invariant
            filler <= device.bels@.len(),
            occupied@.len() == filler,
            forall|b: int| 0 <= b < filler ==> !#[trigger] occupied@[b],
        decreases device.bels@.len() - filler,
    {
        occupied.push(false);
        filler = filler + 1;
    }
    let mut index: usize = 0;
    while index < bindings.len()
        invariant
            index <= bindings@.len(),
            graph.wf(),
            constraints.wf(),
            device == graph.device,
            bindings@.len() == graph.design.cells@.len(),
            occupied@.len() == device.bels@.len(),
            forall|b: int|
                0 <= b < occupied@.len() ==> #[trigger] occupied@[b] == bindings@.take(
                    index as int,
                ).contains(BelId(b as usize)),
            bindings@.take(index as int).no_duplicates(),
            forall|c: int|
                0 <= c < index ==> can_hold(
                    *graph,
                    constraints,
                    CellId(c as usize),
                    #[trigger] bindings@[c],
                ),
        decreases bindings@.len() - index,
    {
        let bel = bindings[index];
        assert(CellId(index as int as usize) == CellId(index));
        if bel.0 >= device.bels.len() {
            assert(!can_hold(*graph, constraints, CellId(index), bindings@[index as int]));
            return Err(refuse_placement(numbered("binding names unknown BEL ", bel.0, "")));
        }
        if graph.design().cells[index].kind != device.bels[bel.0].kind {
            assert(!can_hold(*graph, constraints, CellId(index), bindings@[index as int]));
            return Err(
                refuse_placement(
                    twice_numbered(
                        "BEL ",
                        bel.0 as u64,
                        " is incompatible with cell ID ",
                        index as u64,
                        "",
                    ),
                ),
            );
        }
        let ghost shorter = bindings@.take(index as int);
        let ghost longer = bindings@.take(index + 1);
        assert(longer =~= shorter.push(bel));
        assert(BelId(bel.0 as int as usize) == bel);
        if occupied[bel.0] {
            proof {
                let k = shorter.index_of(bel);
                assert(bindings@[k] == bindings@[index as int]);
            }
            return Err(
                refuse_placement(numbered("BEL ", bel.0, " is assigned more than once")),
            );
        }
        let ghost before = occupied@;
        occupied.set(bel.0, true);
        proof {
            assert(!shorter.contains(bel));
            assert(occupied.len() == occupied@.len());
            assert forall|b: int| 0 <= b < occupied@.len() implies #[trigger] occupied@[b]
                == longer.contains(BelId(b as usize)) by {
                let other = BelId(b as usize);
                assert(before[b] == shorter.contains(other));
                assert(longer[index as int] == bel);
                if shorter.contains(other) {
                    let k = shorter.index_of(other);
                    assert(longer[k] == other);
                }
                if longer.contains(other) && other != bel {
                    let k = longer.index_of(other);
                    assert(shorter[k] == other);
                }
            }
        }
        match check_holder(graph, constraints, CellId(index), bel) {
            Err(error) => {
                assert(!can_hold(*graph, constraints, CellId(index), bindings@[index as int]));
                return Err(error);
            },
            Ok(()) => {},
        }
        index = index + 1;
    }
    assert(bindings@.take(index as int) =~= bindings@);
    Ok(())
}

/// What a complete binding table gives.
pub open spec fn complete_outcome(
    graph: UnifiedGraph<'_>,
    constraints: &PlacementConstraints,
    bindings: Seq<BelId>,
    result: Result<Placement, PnrError>,
) -> bool {
    let sound = pin_bindings_valid(graph, constraints) && shared_rules_valid(graph, constraints);
    match result {
        Ok(placement) => sound && bindings_fit(graph, constraints, bindings) && is_finished(
            graph,
            constraints,
            bindings,
            placement,
        ),
        Err(error) => if bindings.len() != graph.design.cells@.len() {
            error is InvalidPlacement
        } else if !pin_bindings_valid(graph, constraints) {
            binding_defect(graph, constraints, error)
        } else if !shared_rules_valid(graph, constraints) {
            names_rule(graph, constraints, error)
        } else {
            error is InvalidPlacement && !(bindings_fit(graph, constraints, bindings)
                && crate::finish::complete_legal(graph, constraints, bindings))
        },
    }
}

/// Validates and materializes a placement from one BEL binding per cell.
///
/// Unlike [`placement_from_partial_bindings`], this path does not regenerate
/// placement units or search their candidate tables. It is intended for a
/// bounded target ECO that changes a few BELs in an already complete
/// placement. Every supplied binding is still checked for cell/BEL
/// compatibility, unique BEL ownership, physical-pin compatibility, complete
/// atomic-group membership, and shared-resource legality.
///
/// # Errors
///
/// Returns an error when the table is incomplete, names an unknown or
/// incompatible BEL, reuses a BEL, or violates a placement constraint.
pub fn placement_from_complete_bindings(
    design: &Design,
    device: &Device,
    constraints: &PlacementConstraints,
    bindings: Vec<BelId>,
) -> (result: Result<Placement, PnrError>)
    requires
        UnifiedGraph::of(design, device).wf(),
        constraints.wf(),
        constraints.groups@.len() + constraints.shared_resources@.len() <= usize::MAX,
    ensures
        complete_outcome(
            UnifiedGraph::of(design, device),
            constraints,
            bindings@,
            result,
        ),
{
    let graph = UnifiedGraph::new(design, device);
    if bindings.len() != design.cells.len() {
        return Err(wrong_length(design.cells.len(), bindings.len()));
    }
    match validate_pin_bindings(&graph, constraints) {
        Err(error) => {
            return Err(error);
        },
        Ok(()) => {},
    }
    match validate_shared_resources(&graph, constraints) {
        Err(error) => {
            return Err(error);
        },
        Ok(()) => {},
    }
    match validate_bindings(&graph, constraints, &bindings) {
        Err(error) => {
            return Err(error);
        },
        Ok(()) => {},
    }
    proof {
        lemma_valid_in_range(graph, constraints);
        lemma_fit_binds(graph, constraints, bindings@);
    }
    finish_placement(&graph, constraints, bindings)
}

/// Bindings with those of two cells exchanged.
pub open spec fn swapped(bindings: Seq<BelId>, left: CellId, right: CellId) -> Seq<BelId> {
    bindings.update(left.0 as int, bindings[right.0 as int]).update(
        right.0 as int,
        bindings[left.0 as int],
    )
}

/// Every group of one of the cells stands on one of its rows.
pub open spec fn swap_keeps_groups(
    constraints: &PlacementConstraints,
    bindings: Seq<BelId>,
    left: CellId,
    right: CellId,
) -> bool {
    forall|g: int|
        0 <= g < constraints.groups@.len() && ((
        #[trigger] constraints.groups@[g]).cells@.contains(left)
            || constraints.groups@[g].cells@.contains(right)) ==> table_has(
            constraints.groups@[g],
            group_row(constraints.groups@[g], bindings),
        )
}

/// The row is one of the group's.
pub open spec fn table_has(group: PlacementGroup, row: Seq<BelId>) -> bool {
    exists|r: int| 0 <= r < group.assignments@.len() && (#[trigger] group.assignments@[r])@ == row
}

/// Whether a group's cells stand on one of its rows.
fn stands_on_row(group: &PlacementGroup, bindings: &Vec<BelId>) -> (result: bool)
    requires
        forall|k: int|
            0 <= k < group.cells@.len() ==> (#[trigger] group.cells@[k]).0 < bindings@.len(),
    ensures
        result == table_has(*group, group_row(*group, bindings@)),
{
    let mut row: Vec<BelId> = Vec::new();
    let mut at: usize = 0;
    while at < group.cells.len()
        invariant
            at <= group.cells@.len(),
            forall|k: int|
                0 <= k < group.cells@.len() ==> (#[trigger] group.cells@[k]).0 < bindings@.len(),
            row@.len() == at,
            forall|k: int| 0 <= k < at ==> #[trigger] row@[k] == bindings@[group.cells@[k].0 as int],
        decreases group.cells@.len() - at,
    {
        assert(group.cells@[at as int].0 < bindings@.len());
        row.push(bindings[group.cells[at].0]);
        at = at + 1;
    }
    assert(row@ =~= group_row(*group, bindings@));
    let mut index: usize = 0;
    while index < group.assignments.len()
        invariant
            index <= group.assignments@.len(),
            row@ == group_row(*group, bindings@),
            forall|r: int| 0 <= r < index ==> (#[trigger] group.assignments@[r])@ != row@,
        decreases group.assignments@.len() - index,
    {
        if same_keys(&group.assignments[index], &row) {
            assert(group.assignments@[index as int]@ == row@);
            return true;
        }
        index = index + 1;
    }
    false
}

/// Whether a list holds a cell.
fn lists_cell(cells: &Vec<CellId>, cell: CellId) -> (result: bool)
    ensures
        result == cells@.contains(cell),
{
    let mut at: usize = 0;
    while at < cells.len()
        invariant
            at <= cells@.len(),
            forall|k: int| 0 <= k < at ==> #[trigger] cells@[k] != cell,
        decreases cells@.len() - at,
    {
        if cells[at] == cell {
            return true;
        }
        at = at + 1;
    }
    false
}

/// Swaps two same-kind cells in an otherwise unchanged legal placement and
/// rebuilds target-selected physical pin bindings.
///
/// This is a constant-scope detailed-placement ECO. Atomic groups containing
/// either cell are checked against their existing legal assignment tables;
/// unrelated placement units are not regenerated or legalized.
///
/// # Errors
///
/// Returns an error for unknown/different-kind cells or an illegal resulting
/// group assignment.
pub fn swap_placement_cells(
    design: &Design,
    device: &Device,
    constraints: &PlacementConstraints,
    placement: &Placement,
    left: CellId,
    right: CellId,
) -> (result: Result<Placement, PnrError>)
    requires
        UnifiedGraph::of(design, device).wf(),
        constraints.wf(),
        swap_asked(design, placement, left, right) ==> taken_pins_known(
            UnifiedGraph::of(design, device),
            constraints,
            swapped(placement.bindings@, left, right),
        ),
        forall|g: int, k: int|
            #![trigger constraints.groups@[g].cells@[k]]
            0 <= g < constraints.groups@.len() && 0 <= k < constraints.groups@[g].cells@.len() && (
            constraints.groups@[g].cells@.contains(left)
                || constraints.groups@[g].cells@.contains(right))
                ==> constraints.groups@[g].cells@[k].0 < design.cells@.len(),
    ensures
        match result {
            Ok(changed) => {
                &&& swap_asked(design, placement, left, right)
                &&& swap_keeps_groups(
                    constraints,
                    swapped(placement.bindings@, left, right),
                    left,
                    right,
                )
                &&& is_finished(
                    UnifiedGraph::of(design, device),
                    constraints,
                    swapped(placement.bindings@, left, right),
                    changed,
                )
            },
            Err(error) => if !swap_asked(design, placement, left, right) || !swap_keeps_groups(
                constraints,
                swapped(placement.bindings@, left, right),
                left,
                right,
            ) {
                error is InvalidPlacement
            } else {
                finish_refused(
                    UnifiedGraph::of(design, device),
                    constraints,
                    swapped(placement.bindings@, left, right),
                    error,
                )
            },
        },
{
    if left.0 >= design.cells.len() {
        return Err(refuse_placement(numbered("swap names unknown cell ", left.0, "")));
    }
    if right.0 >= design.cells.len() {
        return Err(refuse_placement(numbered("swap names unknown cell ", right.0, "")));
    }
    if design.cells[left.0].kind != design.cells[right.0].kind {
        return Err(
            refuse_placement(
                String::from_str("placement ECO cells have different resource kinds"),
            ),
        );
    }
    if placement.bindings.len() != design.cells.len() {
        return Err(refuse_placement(String::from_str("placement ECO input is incomplete")));
    }
    let mut bindings = copy_keys(&placement.bindings);
    let left_bel = bindings[left.0];
    let right_bel = bindings[right.0];
    bindings.set(left.0, right_bel);
    bindings.set(right.0, left_bel);
    assert(bindings@ =~= swapped(placement.bindings@, left, right));
    let mut index: usize = 0;
    while index < constraints.groups.len()
        invariant
            index <= constraints.groups@.len(),
            bindings@.len() == design.cells@.len(),
            bindings@ == swapped(placement.bindings@, left, right),
            swap_asked(design, placement, left, right),
            forall|g: int, k: int|
                #![trigger constraints.groups@[g].cells@[k]]
                0 <= g < constraints.groups@.len() && 0 <= k < constraints.groups@[g].cells@.len()
                    && (constraints.groups@[g].cells@.contains(left)
                    || constraints.groups@[g].cells@.contains(right))
                    ==> constraints.groups@[g].cells@[k].0 < design.cells@.len(),
            forall|g: int|
                0 <= g < index && ((#[trigger] constraints.groups@[g]).cells@.contains(left)
                    || constraints.groups@[g].cells@.contains(right)) ==> table_has(
                    constraints.groups@[g],
                    group_row(constraints.groups@[g], bindings@),
                ),
        decreases constraints.groups@.len() - index,
    {
        let group = &constraints.groups[index];
        if lists_cell(&group.cells, left) || lists_cell(&group.cells, right) {
            assert forall|k: int| 0 <= k < group.cells@.len() implies (
            #[trigger] group.cells@[k]).0 < bindings@.len() by {
                assert(constraints.groups@[index as int].cells@[k].0 < design.cells@.len());
            }
            if !stands_on_row(group, &bindings) {
                return Err(
                    refuse_placement(
                        numbered(
                            "placement ECO violates group beginning at cell ",
                            group.cells[0].0,
                            "",
                        ),
                    ),
                );
            }
        }
        index = index + 1;
    }
    finish_placement(&UnifiedGraph::new(design, device), constraints, bindings)
}

/// The swap names two cells of one kind in a complete placement.
pub open spec fn swap_asked(
    design: &Design,
    placement: &Placement,
    left: CellId,
    right: CellId,
) -> bool {
    &&& left.0 < design.cells@.len()
    &&& right.0 < design.cells@.len()
    &&& design.cells@[left.0 as int].kind == design.cells@[right.0 as int].kind
    &&& placement.bindings@.len() == design.cells@.len()
}

/// Swapping two cells twice restores the bindings.
pub proof fn swapping_twice_restores(bindings: Seq<BelId>, left: CellId, right: CellId)
    requires
        left.0 < bindings.len(),
        right.0 < bindings.len(),
    ensures
        swapped(swapped(bindings, left, right), left, right) == bindings,
{
    assert(swapped(swapped(bindings, left, right), left, right) =~= bindings);
}

} // verus!
