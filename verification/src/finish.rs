//! Completion and validation of placements.

use vstd::prelude::*;
use vstd::string::*;

use crate::candidates::{bindings_in_range, choice_pin};
use crate::device::UnifiedGraph;
use crate::error::PnrError;
use crate::legality::{assignment_resources_are_legal, legal_row_keeps_placement_legal};
use crate::model::{BelId, BelPinId, CellId, CellPinId, NetId, PinChoice, WireId};
use crate::ordered::OrderedMap;
use crate::placement::Placement;
use crate::placement_constraints::{
    begins_with, lemma_rows_of, rows_of, PlacementConstraints, PlacementGroup,
};
use crate::text::numbered;
use crate::usage::{update_placement_resource_usage, PlacementResourceUsage};
use crate::usage_model::{
    hits, placed_hits, placed_values, resources_legal, wire_nets, with_row, SharedSite,
};

verus! {

/// Slots that hold these BELs.
pub open spec fn all_placed(bindings: Seq<BelId>) -> Seq<Option<BelId>> {
    bindings.map_values(|bel: BelId| Some(bel))
}

/// The first cells placed, the others not.
pub open spec fn first_placed(bindings: Seq<BelId>, count: int) -> Seq<Option<BelId>> {
    Seq::new(
        bindings.len(),
        |c: int|
            if c < count {
                Some(bindings[c])
            } else {
                None
            },
    )
}

/// BELs of the group's cells.
pub open spec fn group_row(group: PlacementGroup, bindings: Seq<BelId>) -> Seq<BelId> {
    group.cells@.map_values(|cell: CellId| bindings[cell.0 as int])
}

/// The group's cells stand on one of its rows.
pub open spec fn group_matches(group: PlacementGroup, bindings: Seq<BelId>) -> bool {
    &&& forall|k: int|
        0 <= k < group.cells@.len() ==> (#[trigger] group.cells@[k]).0 < bindings.len()
    &&& exists|r: int|
        0 <= r < group.assignments@.len() && (#[trigger] group.assignments@[r])@ == group_row(
            group,
            bindings,
        )
}

/// Every group stands on one of its rows.
pub open spec fn groups_match(constraints: &PlacementConstraints, bindings: Seq<BelId>) -> bool {
    forall|g: int|
        0 <= g < constraints.groups@.len() ==> group_matches(
            #[trigger] constraints.groups@[g],
            bindings,
        )
}

/// The complete placement keeps the groups whole and shares resources legally.
pub open spec fn complete_legal(
    graph: UnifiedGraph<'_>,
    constraints: &PlacementConstraints,
    bindings: Seq<BelId>,
) -> bool {
    groups_match(constraints, bindings) && resources_legal(
        graph,
        constraints,
        all_placed(bindings),
    )
}

/// Whether the row is the one that the cells stand on.
fn row_matches(cells: &Vec<CellId>, row: &Vec<BelId>, bindings: &Vec<BelId>) -> (result: bool)
    requires
        forall|k: int| 0 <= k < cells@.len() ==> (#[trigger] cells@[k]).0 < bindings@.len(),
    ensures
        result == (row@ == cells@.map_values(|cell: CellId| bindings@[cell.0 as int])),
{
    let ghost wanted = cells@.map_values(|cell: CellId| bindings@[cell.0 as int]);
    if row.len() != cells.len() {
        assert(row@.len() != wanted.len());
        return false;
    }
    let mut at: usize = 0;
    while at < cells.len()
        invariant
            at <= cells@.len(),
            row@.len() == cells@.len(),
            wanted == cells@.map_values(|cell: CellId| bindings@[cell.0 as int]),
            forall|k: int| 0 <= k < cells@.len() ==> (#[trigger] cells@[k]).0 < bindings@.len(),
            forall|k: int| 0 <= k < at ==> #[trigger] row@[k] == wanted[k],
        decreases cells@.len() - at,
    {
        assert(cells@[at as int].0 < bindings@.len());
        if bindings[cells[at].0] != row[at] {
            assert(row@[at as int] != wanted[at as int]);
            return false;
        }
        at = at + 1;
    }
    assert(row@ =~= wanted);
    true
}

/// Whether the cells of a group stand on one of its rows.
fn group_stands(constraints: &PlacementConstraints, index: usize, bindings: &Vec<BelId>) -> (result:
    bool)
    requires
        constraints.wf(),
        index < constraints.groups@.len(),
        forall|k: int|
            0 <= k < constraints.groups@[index as int].cells@.len() ==> (
            #[trigger] constraints.groups@[index as int].cells@[k]).0 < bindings@.len(),
    ensures
        result == group_matches(constraints.groups@[index as int], bindings@),
{
    let group = &constraints.groups[index];
    let table = &group.assignments;
    assert(table@.len() == table.len());
    if group.cells.len() == 0 {
        let mut row: usize = 0;
        while row < table.len()
            invariant
                row <= table@.len(),
                index < constraints.groups@.len(),
                *group == constraints.groups@[index as int],
                group.cells@.len() == 0,
                *table == group.assignments,
                forall|r: int| 0 <= r < row ==> (#[trigger] table@[r])@.len() > 0,
            decreases table@.len() - row,
        {
            if table[row].len() == 0 {
                proof {
                    assert(group.assignments@[row as int]@ =~= group_row(*group, bindings@));
                }
                return true;
            }
            row = row + 1;
        }
        proof {
            assert forall|r: int| 0 <= r < table@.len() implies (#[trigger] group.assignments@[r])@
                != group_row(*group, bindings@) by {
                assert(table@[r]@.len() > 0);
            }
        }
        return false;
    }
    let first = bindings[group.cells[0].0];
    let ghost wanted = group_row(*group, bindings@);
    proof {
        assert(constraints.group_row_indexes@[index as int].describes(
            constraints.groups@[index as int].assignments@,
        ));
        lemma_rows_of(table@, first);
        assert(wanted.len() > 0 && wanted[0] == first);
    }
    let rows = match constraints.group_row_indexes[index].rows.get(first) {
        None => {
            proof {
                assert forall|r: int| 0 <= r < table@.len() implies (
                #[trigger] group.assignments@[r])@ != wanted by {
                    if group.assignments@[r]@ == wanted {
                        assert(begins_with(table@[r as usize as int]@, first));
                        assert(rows_of(table@, first).contains(r as usize));
                    }
                }
            }
            return false;
        },
        Some(rows) => rows,
    };
    let mut at: usize = 0;
    while at < rows.len()
        invariant
            at <= rows@.len(),
            index < constraints.groups@.len(),
            *group == constraints.groups@[index as int],
            *table == group.assignments,
            rows@ == rows_of(table@, first),
            table@.len() <= usize::MAX,
            wanted == group_row(*group, bindings@),
            forall|r: usize| #[trigger]
                rows_of(table@, first).contains(r) <==> r < table@.len() && begins_with(
                    table@[r as int]@,
                    first,
                ),
            forall|k: int|
                0 <= k < group.cells@.len() ==> (#[trigger] group.cells@[k]).0 < bindings@.len(),
            forall|k: int| 0 <= k < at ==> table@[(#[trigger] rows@[k]) as int]@ != wanted,
        decreases rows@.len() - at,
    {
        let row: usize = rows[at];
        assert(rows_of(table@, first).contains(rows@[at as int]));
        if row_matches(&group.cells, &table[row], bindings) {
            assert(group.assignments@[row as int]@ == group_row(*group, bindings@));
            return true;
        }
        at = at + 1;
    }
    proof {
        assert forall|r: int| 0 <= r < table@.len() implies (#[trigger] group.assignments@[r])@
            != wanted by {
            if group.assignments@[r]@ == wanted {
                assert(begins_with(table@[r as usize as int]@, first));
                assert(rows_of(table@, first).contains(r as usize));
                let k = rows@.index_of(r as usize);
                assert(table@[rows@[k] as int]@ != wanted);
            }
        }
    }
    false
}

/// First cell of a group outside the binding table.
fn find_outside(cells: &Vec<CellId>, count: usize) -> (result: bool)
    ensures
        result == exists|k: int| 0 <= k < cells@.len() && (#[trigger] cells@[k]).0 >= count,
{
    let mut at: usize = 0;
    while at < cells.len()
        invariant
            at <= cells@.len(),
            forall|k: int| 0 <= k < at ==> (#[trigger] cells@[k]).0 < count,
        decreases cells@.len() - at,
    {
        if cells[at].0 >= count {
            assert(cells@[at as int].0 >= count);
            return true;
        }
        at = at + 1;
    }
    false
}

/// Reports an illegal placement.
pub(crate) fn refuse_placement(reason: String) -> (result: PnrError)
    ensures
        result == (PnrError::InvalidPlacement { reason }),
{
    PnrError::InvalidPlacement { reason }
}

/// Checks that every group stands on one of its rows.
fn validate_groups(constraints: &PlacementConstraints, bindings: &Vec<BelId>) -> (result: Result<
    (),
    PnrError,
>)
    requires
        constraints.wf(),
    ensures
        match result {
            Ok(()) => groups_match(constraints, bindings@),
            Err(error) => !groups_match(constraints, bindings@) && error is InvalidPlacement,
        },
{
    let mut index: usize = 0;
    while index < constraints.groups.len()
        invariant
            index <= constraints.groups@.len(),
            constraints.wf(),
            forall|g: int|
                0 <= g < index ==> group_matches(#[trigger] constraints.groups@[g], bindings@),
        decreases constraints.groups@.len() - index,
    {
        if find_outside(&constraints.groups[index].cells, bindings.len()) {
            proof {
                let group = constraints.groups@[index as int];
                let k = choose|k: int|
                    0 <= k < group.cells@.len() && (#[trigger] group.cells@[k]).0
                        >= bindings@.len();
                assert(!group_matches(constraints.groups@[index as int], bindings@));
            }
            return Err(
                refuse_placement(
                    numbered(
                        "placement group ",
                        index,
                        " refers to a cell outside the complete binding table",
                    ),
                ),
            );
        }
        if !group_stands(constraints, index, bindings) {
            assert(!group_matches(constraints.groups@[index as int], bindings@));
            return Err(
                refuse_placement(
                    numbered(
                        "placement group ",
                        index,
                        " does not match one complete legal assignment row",
                    ),
                ),
            );
        }
        index = index + 1;
    }
    Ok(())
}

/// The pins of a cell join finitely many nets to a wire.
proof fn lemma_cell_nets_finite(
    graph: UnifiedGraph<'_>,
    constraints: &PlacementConstraints,
    pins: Seq<CellPinId>,
    bel: BelId,
    wire: WireId,
)
    ensures
        Set::new(|n: NetId| hits(graph, constraints, pins, bel, wire, n) > 0).finite(),
    decreases pins.len(),
{
    let all = Set::new(|n: NetId| hits(graph, constraints, pins, bel, wire, n) > 0);
    if pins.len() == 0 {
        assert(all =~= Set::<NetId>::empty());
    } else {
        lemma_cell_nets_finite(graph, constraints, pins.drop_last(), bel, wire);
        let rest = Set::new(
            |n: NetId| hits(graph, constraints, pins.drop_last(), bel, wire, n) > 0,
        );
        match graph.design.pins@[pins.last().0 as int].net {
            Some(net) => {
                assert(all.subset_of(rest.insert(net)));
                vstd::set_lib::lemma_len_subset(all, rest.insert(net));
            },
            None => {
                assert(all =~= rest);
            },
        }
    }
}

/// The placed cells join finitely many nets to a wire.
pub proof fn lemma_wire_nets_finite(
    graph: UnifiedGraph<'_>,
    constraints: &PlacementConstraints,
    placed: Seq<Option<BelId>>,
    wire: WireId,
)
    ensures
        wire_nets(graph, constraints, placed, wire).finite(),
    decreases placed.len(),
{
    let all = wire_nets(graph, constraints, placed, wire);
    if placed.len() == 0 {
        assert(all =~= Set::<NetId>::empty());
    } else {
        let rest = wire_nets(graph, constraints, placed.drop_last(), wire);
        lemma_wire_nets_finite(graph, constraints, placed.drop_last(), wire);
        match placed.last() {
            Some(bel) => {
                let pins = graph.design.cells@[placed.len() - 1].pins@;
                lemma_cell_nets_finite(graph, constraints, pins, bel, wire);
                let own = Set::new(|n: NetId| hits(graph, constraints, pins, bel, wire, n) > 0);
                assert(all =~= rest.union(own));
                vstd::set_lib::lemma_len_union(rest, own);
            },
            None => {
                assert(all =~= rest);
            },
        }
    }
}

/// With fewer cells placed, no more pins and values are counted.
proof fn lemma_fewer_placed(
    graph: UnifiedGraph<'_>,
    constraints: &PlacementConstraints,
    fewer: Seq<Option<BelId>>,
    more: Seq<Option<BelId>>,
)
    requires
        fewer.len() == more.len(),
        forall|c: int|
            0 <= c < more.len() ==> #[trigger] fewer[c] is None || fewer[c] == more[c],
    ensures
        forall|w: WireId, n: NetId|
            placed_hits(graph, constraints, fewer, w, n) <= #[trigger] placed_hits(
                graph,
                constraints,
                more,
                w,
                n,
            ),
        forall|s: SharedSite, v: u64|
            placed_values(constraints, fewer, s, v) <= #[trigger] placed_values(
                constraints,
                more,
                s,
                v,
            ),
    decreases more.len(),
{
    if more.len() > 0 {
        assert(fewer[more.len() - 1] is None || fewer[more.len() - 1] == more[more.len() - 1]);
        assert forall|c: int| 0 <= c < more.drop_last().len() implies
        #[trigger] fewer.drop_last()[c] is None || fewer.drop_last()[c] == more.drop_last()[c] by {
            assert(fewer[c] is None || fewer[c] == more[c]);
        }
        lemma_fewer_placed(graph, constraints, fewer.drop_last(), more.drop_last());
        assert forall|w: WireId, n: NetId|
            placed_hits(graph, constraints, fewer, w, n) <= #[trigger] placed_hits(
                graph,
                constraints,
                more,
                w,
                n,
            ) by {
            assert(placed_hits(graph, constraints, fewer.drop_last(), w, n) <= placed_hits(
                graph,
                constraints,
                more.drop_last(),
                w,
                n,
            ));
        }
        assert forall|s: SharedSite, v: u64|
            placed_values(constraints, fewer, s, v) <= #[trigger] placed_values(
                constraints,
                more,
                s,
                v,
            ) by {
            assert(placed_values(constraints, fewer.drop_last(), s, v) <= placed_values(
                constraints,
                more.drop_last(),
                s,
                v,
            ));
        }
    }
}

/// A part of a legal placement is legal.
pub proof fn legal_parts_are_legal(
    graph: UnifiedGraph<'_>,
    constraints: &PlacementConstraints,
    fewer: Seq<Option<BelId>>,
    more: Seq<Option<BelId>>,
)
    requires
        fewer.len() == more.len(),
        forall|c: int|
            0 <= c < more.len() ==> #[trigger] fewer[c] is None || fewer[c] == more[c],
        resources_legal(graph, constraints, more),
    ensures
        resources_legal(graph, constraints, fewer),
{
    lemma_fewer_placed(graph, constraints, fewer, more);
    assert forall|w: WireId| w.0 < graph.device.wires@.len() implies (#[trigger] wire_nets(
        graph,
        constraints,
        fewer,
        w,
    )).len() <= graph.device.wires@[w.0 as int].capacity by {
        lemma_wire_nets_finite(graph, constraints, more, w);
        let small = wire_nets(graph, constraints, fewer, w);
        let large = wire_nets(graph, constraints, more, w);
        assert forall|n: NetId| small.contains(n) implies large.contains(n) by {
            assert(placed_hits(graph, constraints, fewer, w, n) <= placed_hits(
                graph,
                constraints,
                more,
                w,
                n,
            ));
        }
        vstd::set_lib::lemma_len_subset(small, large);
    }
    assert forall|s: SharedSite, v: u64, x: u64|
        #![trigger placed_values(constraints, fewer, s, v), placed_values(constraints, fewer, s, x)]
        placed_values(constraints, fewer, s, v) > 0 && placed_values(constraints, fewer, s, x)
            > 0 implies v == x by {
        assert(placed_values(constraints, more, s, v) > 0);
        assert(placed_values(constraints, more, s, x) > 0);
    }
}

/// Nothing placed is legal.
pub proof fn lemma_nothing_placed(
    graph: UnifiedGraph<'_>,
    constraints: &PlacementConstraints,
    placed: Seq<Option<BelId>>,
)
    requires
        forall|c: int| 0 <= c < placed.len() ==> #[trigger] placed[c] is None,
    ensures
        forall|w: WireId, n: NetId| #[trigger] placed_hits(graph, constraints, placed, w, n) == 0,
        forall|s: SharedSite, v: u64| #[trigger] placed_values(constraints, placed, s, v) == 0,
        resources_legal(graph, constraints, placed),
    decreases placed.len(),
{
    if placed.len() > 0 {
        let rest = placed.drop_last();
        assert forall|c: int| 0 <= c < rest.len() implies #[trigger] rest[c] is None by {
            assert(placed[c] is None);
        }
        lemma_nothing_placed(graph, constraints, rest);
        assert(placed[placed.len() - 1] is None);
        assert forall|w: WireId, n: NetId| #[trigger]
            placed_hits(graph, constraints, placed, w, n) == 0 by {
            assert(placed_hits(graph, constraints, rest, w, n) == 0);
        }
        assert forall|s: SharedSite, v: u64| #[trigger]
            placed_values(constraints, placed, s, v) == 0 by {
            assert(placed_values(constraints, rest, s, v) == 0);
        }
    }
    assert forall|w: WireId| w.0 < graph.device.wires@.len() implies (#[trigger] wire_nets(
        graph,
        constraints,
        placed,
        w,
    )).len() <= graph.device.wires@[w.0 as int].capacity by {
        assert(wire_nets(graph, constraints, placed, w) =~= Set::<NetId>::empty());
    }
}

/// Checks that the groups are whole and that resources are shared legally.
pub(crate) fn validate_complete_placement_resources(
    graph: &UnifiedGraph<'_>,
    constraints: &PlacementConstraints,
    bindings: &Vec<BelId>,
) -> (result: Result<(), PnrError>)
    requires
        graph.wf(),
        constraints.wf(),
        bindings_in_range(*graph, constraints),
        bindings@.len() == graph.design.cells@.len(),
    ensures
        match result {
            Ok(()) => complete_legal(*graph, constraints, bindings@),
            Err(error) => !complete_legal(*graph, constraints, bindings@) && error
                is InvalidPlacement,
        },
{
    match validate_groups(constraints, bindings) {
        Err(error) => {
            return Err(error);
        },
        Ok(()) => {},
    }
    let mut usage = PlacementResourceUsage::new(graph.device());
    let ghost whole = all_placed(bindings@);
    proof {
        lemma_nothing_placed(*graph, constraints, first_placed(bindings@, 0));
        assert(usage.tracks(*graph, constraints, first_placed(bindings@, 0)));
    }
    let mut index: usize = 0;
    while index < bindings.len()
        invariant
            index <= bindings@.len(),
            graph.wf(),
            constraints.wf(),
            bindings_in_range(*graph, constraints),
            bindings@.len() == graph.design.cells@.len(),
            whole == all_placed(bindings@),
            usage.tracks(*graph, constraints, first_placed(bindings@, index as int)),
            resources_legal(*graph, constraints, first_placed(bindings@, index as int)),
        decreases bindings@.len() - index,
    {
        let mut cells: Vec<CellId> = Vec::new();
        cells.push(CellId(index));
        let mut row: Vec<BelId> = Vec::new();
        row.push(bindings[index]);
        let ghost now = first_placed(bindings@, index as int);
        let ghost next = first_placed(bindings@, index + 1);
        proof {
            assert(cells@ =~= seq![CellId(index)]);
            assert(bindings@.len() == bindings.len());
            lemma_single_row(now, CellId(index), bindings@[index as int], cells@, row@);
            assert(next =~= now.update(index as int, Some(bindings@[index as int])));
            legal_row_keeps_placement_legal(*graph, constraints, now, cells@, row@);
        }
        if !assignment_resources_are_legal(graph, constraints, &cells, &row, &mut usage, Ghost(now)) {
            proof {
                if resources_legal(*graph, constraints, whole) {
                    assert forall|c: int| 0 <= c < whole.len() implies #[trigger] next[c] is None
                        || next[c] == whole[c] by {}
                    legal_parts_are_legal(*graph, constraints, next, whole);
                }
            }
            return Err(
                refuse_placement(
                    crate::text::joined(
                        "cell ",
                        graph.design().cells[index].name.as_str(),
                        " conflicts with a shared physical placement resource",
                    ),
                ),
            );
        }
        update_placement_resource_usage(
            graph,
            constraints,
            &cells,
            &row,
            &mut usage,
            true,
            Ghost(now),
        );
        index = index + 1;
    }
    assert(first_placed(bindings@, index as int) =~= whole);
    Ok(())
}

/// Placing a single cell updates its slot.
pub proof fn lemma_single_row(
    placed: Seq<Option<BelId>>,
    cell: CellId,
    bel: BelId,
    cells: Seq<CellId>,
    row: Seq<BelId>,
)
    requires
        cells == seq![cell],
        row == seq![bel],
    ensures
        with_row(placed, cells, row) == placed.update(cell.0 as int, Some(bel)),
{
    assert(cells.drop_last().len() == 0);
    assert(with_row(placed, cells.drop_last(), row.drop_last()) == placed);
}

/// The physical pin of the logical pin is not the one of its own name by default.
pub open spec fn is_overridden(
    graph: UnifiedGraph<'_>,
    constraints: &PlacementConstraints,
    bindings: Seq<BelId>,
    pin: CellPinId,
) -> bool {
    &&& pin.0 < graph.design.pins@.len()
    &&& constraints.pin_name_bindings@.contains_key(pin) || constraints.pin_bindings@.contains_key(
        PinChoice { pin, bel: bindings[graph.design.pins@[pin.0 as int].cell.0 as int] },
    )
}

/// Physical pin of a logical pin in the placement.
pub open spec fn placed_pin(
    graph: UnifiedGraph<'_>,
    constraints: &PlacementConstraints,
    bindings: Seq<BelId>,
    pin: CellPinId,
) -> Option<BelPinId> {
    choice_pin(
        graph,
        constraints,
        pin,
        bindings[graph.design.pins@[pin.0 as int].cell.0 as int],
    )
}

/// Every overridden pin has a physical pin on its BEL.
pub open spec fn overrides_resolve(
    graph: UnifiedGraph<'_>,
    constraints: &PlacementConstraints,
    bindings: Seq<BelId>,
) -> bool {
    forall|p: CellPinId| #[trigger]
        is_overridden(graph, constraints, bindings, p) ==> placed_pin(
            graph,
            constraints,
            bindings,
            p,
        ) is Some
}

/// The placement binds the cells so, and lists exactly the overridden pins.
pub open spec fn is_finished(
    graph: UnifiedGraph<'_>,
    constraints: &PlacementConstraints,
    bindings: Seq<BelId>,
    placement: Placement,
) -> bool {
    &&& placement.wf()
    &&& placement.bindings@ == bindings
    &&& complete_legal(graph, constraints, bindings)
    &&& forall|p: CellPinId| #[trigger]
        placement.pin_bindings@.contains_key(p) <==> is_overridden(
            graph,
            constraints,
            bindings,
            p,
        )
    &&& forall|p: CellPinId| #[trigger]
        placement.pin_bindings@.contains_key(p) ==> placed_pin(graph, constraints, bindings, p)
            == Some(placement.pin_bindings@[p])
}

/// Why a complete placement was refused.
pub open spec fn finish_refused(
    graph: UnifiedGraph<'_>,
    constraints: &PlacementConstraints,
    bindings: Seq<BelId>,
    error: PnrError,
) -> bool {
    match error {
        PnrError::InvalidPlacement { .. } => !complete_legal(graph, constraints, bindings),
        PnrError::InvalidPinNameBinding { pin, name, .. } => {
            &&& complete_legal(graph, constraints, bindings)
            &&& is_overridden(graph, constraints, bindings, pin)
            &&& placed_pin(graph, constraints, bindings, pin) is None
            &&& constraints.pin_name_bindings@.contains_key(pin)
            &&& name@ == constraints.pin_name_bindings@[pin]@
        },
        _ => false,
    }
}

/// Bindings that name single BELs, where the cells stand on them.
fn direct_overrides(
    graph: &UnifiedGraph<'_>,
    constraints: &PlacementConstraints,
    bindings: &Vec<BelId>,
) -> (result: OrderedMap<CellPinId, BelPinId>)
    requires
        graph.wf(),
        constraints.wf(),
        bindings_in_range(*graph, constraints),
        bindings@.len() == graph.design.cells@.len(),
    ensures
        result.wf(),
        forall|p: CellPinId| #[trigger]
            result@.contains_key(p) <==> p.0 < graph.design.pins@.len()
                && constraints.pin_bindings@.contains_key(
                PinChoice {
                    pin: p,
                    bel: bindings@[graph.design.pins@[p.0 as int].cell.0 as int],
                },
            ),
        forall|p: CellPinId| #[trigger]
            result@.contains_key(p) ==> placed_pin(*graph, constraints, bindings@, p) == Some(
                result@[p],
            ),
{
    let table = &constraints.pin_bindings;
    let mut result: OrderedMap<CellPinId, BelPinId> = OrderedMap::new();
    let mut index: usize = 0;
    while index < table.len()
        invariant
            index <= table.ordered().len(),
            *table == constraints.pin_bindings,
            table.wf(),
            graph.wf(),
            bindings_in_range(*graph, constraints),
            bindings@.len() == graph.design.cells@.len(),
            result.wf(),
            forall|p: CellPinId| #[trigger]
                result@.contains_key(p) <==> p.0 < graph.design.pins@.len() && table.ordered().take(
                    index as int,
                ).contains(
                    PinChoice {
                        pin: p,
                        bel: bindings@[graph.design.pins@[p.0 as int].cell.0 as int],
                    },
                ),
            forall|p: CellPinId| #[trigger]
                result@.contains_key(p) ==> placed_pin(*graph, constraints, bindings@, p) == Some(
                    result@[p],
                ),
        decreases table.ordered().len() - index,
    {
        let choice = table.key_at(index);
        let ghost before = result@;
        proof {
            table.entry(index as int);
            assert(constraints.pin_bindings@.contains_key(choice));
        }
        let bel = bindings[graph.design().pins[choice.pin.0].cell.0];
        if bel == choice.bel {
            result.insert(choice.pin, *table.value_at(index));
        }
        proof {
            let shorter = table.ordered().take(index as int);
            let longer = table.ordered().take(index + 1);
            assert(longer =~= shorter.push(choice));
            assert(PinChoice { pin: choice.pin, bel: choice.bel } == choice);
            assert forall|p: CellPinId| #[trigger] result@.contains_key(p) <==> p.0
                < graph.design.pins@.len() && longer.contains(
                PinChoice {
                    pin: p,
                    bel: bindings@[graph.design.pins@[p.0 as int].cell.0 as int],
                },
            ) by {
                let wanted = PinChoice {
                    pin: p,
                    bel: bindings@[graph.design.pins@[p.0 as int].cell.0 as int],
                };
                assert(before.contains_key(p) <==> p.0 < graph.design.pins@.len()
                    && shorter.contains(wanted));
                assert(longer[index as int] == choice);
                if shorter.contains(wanted) {
                    let k = shorter.index_of(wanted);
                    assert(longer[k] == wanted);
                }
                if longer.contains(wanted) && wanted != choice {
                    let k = longer.index_of(wanted);
                    assert(shorter[k] == wanted);
                }
            }
        }
        index = index + 1;
    }
    proof {
        assert(table.ordered().take(index as int) =~= table.ordered());
        table.lemma_size();
        assert forall|p: CellPinId| #[trigger] result@.contains_key(p) <==> p.0
            < graph.design.pins@.len() && constraints.pin_bindings@.contains_key(
            PinChoice { pin: p, bel: bindings@[graph.design.pins@[p.0 as int].cell.0 as int] },
        ) by {
            let wanted = PinChoice {
                pin: p,
                bel: bindings@[graph.design.pins@[p.0 as int].cell.0 as int],
            };
            assert(table@.dom().contains(wanted) <==> table.ordered().to_set().contains(wanted));
        }
    }
    result
}

/// Validates a complete placement and resolves its overridden pins.
pub(crate) fn finish_placement(
    graph: &UnifiedGraph<'_>,
    constraints: &PlacementConstraints,
    bindings: Vec<BelId>,
) -> (result: Result<Placement, PnrError>)
    requires
        graph.wf(),
        constraints.wf(),
        bindings_in_range(*graph, constraints),
        bindings@.len() == graph.design.cells@.len(),
    ensures
        match result {
            Ok(placement) => is_finished(*graph, constraints, bindings@, placement)
                && overrides_resolve(*graph, constraints, bindings@),
            Err(error) => finish_refused(*graph, constraints, bindings@, error),
        },
{
    match validate_complete_placement_resources(graph, constraints, &bindings) {
        Err(error) => {
            return Err(error);
        },
        Ok(()) => {},
    }
    let mut pin_bindings = direct_overrides(graph, constraints, &bindings);
    let names = &constraints.pin_name_bindings;
    let ghost direct = pin_bindings@;
    let mut index: usize = 0;
    while index < names.len()
        invariant
            index <= names.ordered().len(),
            *names == constraints.pin_name_bindings,
            names.wf(),
            graph.wf(),
            constraints.wf(),
            bindings_in_range(*graph, constraints),
            bindings@.len() == graph.design.cells@.len(),
            complete_legal(*graph, constraints, bindings@),
            pin_bindings.wf(),
            forall|p: CellPinId| #[trigger]
                direct.contains_key(p) <==> p.0 < graph.design.pins@.len()
                    && constraints.pin_bindings@.contains_key(
                    PinChoice {
                        pin: p,
                        bel: bindings@[graph.design.pins@[p.0 as int].cell.0 as int],
                    },
                ),
            forall|p: CellPinId| #[trigger]
                pin_bindings@.contains_key(p) <==> direct.contains_key(p) || names.ordered().take(
                    index as int,
                ).to_set().contains(p),
            forall|p: CellPinId| #[trigger]
                pin_bindings@.contains_key(p) ==> placed_pin(*graph, constraints, bindings@, p)
                    == Some(pin_bindings@[p]),
        decreases names.ordered().len() - index,
    {
        let pin = names.key_at(index);
        let name = names.value_at(index);
        let ghost before = pin_bindings@;
        proof {
            names.entry(index as int);
            assert(constraints.pin_name_bindings@.contains_key(pin));
            crate::ordered::lemma_take_step(names.ordered(), index as int);
        }
        if !pin_bindings.contains_key(pin) {
            let bel = bindings[graph.design().pins[pin.0].cell.0];
            match graph.physical_pin_by_name(pin, bel, name) {
                None => {
                    proof {
                        reveal_strlit("");
                        assert(!direct.contains_key(pin));
                    }
                    return Err(
                        PnrError::InvalidPinNameBinding {
                            pin,
                            name: crate::text::joined(name.as_str(), "", ""),
                            reason: numbered(
                                "selected BEL ",
                                bel.0,
                                " does not expose a compatible pin",
                            ),
                        },
                    );
                },
                Some(bel_pin) => {
                    assert(!direct.contains_key(pin));
                    pin_bindings.insert(pin, bel_pin);
                },
            }
        }
        proof {
            assert forall|p: CellPinId| #[trigger]
                pin_bindings@.contains_key(p) <==> direct.contains_key(p) || names.ordered().take(
                index + 1,
            ).to_set().contains(p) by {
                assert(before.contains_key(p) <==> direct.contains_key(p) || names.ordered().take(
                    index as int,
                ).to_set().contains(p));
            }
        }
        index = index + 1;
    }
    proof {
        assert(names.ordered().take(index as int) =~= names.ordered());
        names.lemma_size();
        assert forall|p: CellPinId| #[trigger] pin_bindings@.contains_key(p) <==> is_overridden(
            *graph,
            constraints,
            bindings@,
            p,
        ) by {
            assert(names@.dom().contains(p) <==> names.ordered().to_set().contains(p));
            assert(direct.contains_key(p) <==> p.0 < graph.design.pins@.len()
                && constraints.pin_bindings@.contains_key(
                PinChoice {
                    pin: p,
                    bel: bindings@[graph.design.pins@[p.0 as int].cell.0 as int],
                },
            ));
        }
        assert forall|p: CellPinId| #[trigger]
            is_overridden(*graph, constraints, bindings@, p) implies placed_pin(
            *graph,
            constraints,
            bindings@,
            p,
        ) is Some by {
            assert(pin_bindings@.contains_key(p));
        }
    }
    Ok(Placement { bindings, pin_bindings })
}

} // verus!
