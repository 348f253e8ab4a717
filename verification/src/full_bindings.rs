//! A full binding table gives the same placement by either way.

use vstd::prelude::*;

use crate::candidates::{can_hold, lemma_valid_in_range};
use crate::device::UnifiedGraph;
use crate::error::PnrError;
use crate::finish::{
    all_placed, complete_legal, group_matches, group_row, is_finished, legal_parts_are_legal,
};
use crate::legality::legal_row_keeps_placement_legal;
use crate::model::{BelId, CellId, CellPinId};
use crate::partial::{
    is_first_suit, partial_outcome, partial_stuck, row_suits, took_first_rows, wanted_known,
};
use crate::placement::Placement;
use crate::placement_constraints::PlacementConstraints;
use crate::placement_edit::{bindings_fit, complete_outcome};
use crate::placement_state::is_taken;
use crate::placing::{lemma_next_unit_empty, lemma_placed_by, placed_by, rows_chosen};
use crate::unit_list::{are_units, is_covered};
use crate::units::{constraints_valid, row_fits, PlacementChoices, PlacementUnit};
use crate::usage_model::{cells_in_range, lemma_with_row, with_row};

verus! {

/// The binding of every cell.
pub open spec fn full_table(bindings: Seq<BelId>) -> Map<CellId, BelId> {
    Map::new(|c: CellId| c.0 < bindings.len(), |c: CellId| bindings[c.0 as int])
}

/// Finished placements of one table are the same.
pub proof fn lemma_finished_same(
    graph: UnifiedGraph<'_>,
    constraints: &PlacementConstraints,
    bindings: Seq<BelId>,
    a: Placement,
    b: Placement,
)
    requires
        is_finished(graph, constraints, bindings, a),
        is_finished(graph, constraints, bindings, b),
    ensures
        a.same(&b),
{
    assert forall|p: CellPinId| #[trigger]
        a.pin_bindings@.contains_key(p) <==> b.pin_bindings@.contains_key(p) by {}
    assert forall|p: CellPinId| #[trigger] a.pin_bindings@.contains_key(p) implies a.pin_bindings@[p]
        == b.pin_bindings@[p] by {
        assert(b.pin_bindings@.contains_key(p));
    }
    assert(a.pin_bindings@ =~= b.pin_bindings@);
}

/// A row that agrees with every binding is the one that the cells stand on.
proof fn lemma_agreeing_row(
    graph: UnifiedGraph<'_>,
    constraints: &PlacementConstraints,
    bindings: Seq<BelId>,
    unit: PlacementUnit,
    placed: Seq<Option<BelId>>,
    index: int,
)
    requires
        bindings.len() == graph.design.cells@.len(),
        unit.wf(graph, constraints),
        0 <= index < unit.choices.count(),
        row_suits(graph, constraints, full_table(bindings), unit, placed, index),
    ensures
        forall|k: int|
            0 <= k < unit.cells@.len() ==> unit.choices.row(index)[k] == bindings[(
            #[trigger] unit.cells@[k]).0 as int],
{
    assert(row_fits(graph, constraints, unit.cells@, unit.choices.row(index)));
    assert forall|k: int| 0 <= k < unit.cells@.len() implies unit.choices.row(index)[k]
        == bindings[(#[trigger] unit.cells@[k]).0 as int] by {
        assert(full_table(bindings).contains_key(unit.cells@[k]));
    }
}

/// What the first units take is part of the full table.
proof fn lemma_first_part(
    graph: UnifiedGraph<'_>,
    constraints: &PlacementConstraints,
    bindings: Seq<BelId>,
    units: Seq<PlacementUnit>,
    rows: Seq<int>,
    count: int,
)
    requires
        graph.wf(),
        bindings.len() == graph.design.cells@.len(),
        are_units(graph, constraints, units),
        0 <= count <= units.len(),
        took_first_rows(graph, constraints, full_table(bindings), units, rows, count),
    ensures
        rows_chosen(units, rows, count),
        ({
            let placed = placed_by(units, rows, count, graph.design.cells@.len());
            &&& placed.len() == bindings.len()
            &&& forall|c: int|
                0 <= c < placed.len() ==> #[trigger] placed[c] is None || placed[c] == Some(
                    bindings[c],
                )
            &&& forall|u: int, k: int|
                #![trigger units[u].cells@[k]]
                0 <= u < count && 0 <= k < units[u].cells@.len()
                    ==> placed[units[u].cells@[k].0 as int] is Some
        }),
{
    let cells = graph.design.cells@.len();
    let placed = placed_by(units, rows, count, cells);
    assert forall|u: int| 0 <= u < count implies 0 <= #[trigger] rows[u]
        < units[u].choices.count() by {
        assert(is_first_suit(
            graph,
            constraints,
            full_table(bindings),
            units[u],
            placed_by(units, rows, u, cells),
            rows[u],
        ));
    }
    lemma_placed_by(graph, constraints, units, rows, count);
    assert(graph.design.cells.len() == cells);
    assert forall|c: int| 0 <= c < placed.len() implies #[trigger] placed[c] is None || placed[c]
        == Some(bindings[c]) by {
        let cell = CellId(c as usize);
        if !crate::placing::is_later(units, cell, count) {
            let u = choose|u: int| 0 <= u < count && (#[trigger] units[u]).cells@.contains(cell);
            let k = units[u].cells@.index_of(cell);
            assert(units[u].cells@[k] == cell);
            assert(units[u].wf(graph, constraints));
            assert(is_first_suit(
                graph,
                constraints,
                full_table(bindings),
                units[u],
                placed_by(units, rows, u, cells),
                rows[u],
            ));
            lemma_agreeing_row(
                graph,
                constraints,
                bindings,
                units[u],
                placed_by(units, rows, u, cells),
                rows[u],
            );
        }
    }
}

/// The unit can stand where the full table has its cells.
proof fn lemma_row_offered(
    graph: UnifiedGraph<'_>,
    constraints: &PlacementConstraints,
    bindings: Seq<BelId>,
    units: Seq<PlacementUnit>,
    count: int,
) -> (index: int)
    requires
        bindings_fit(graph, constraints, bindings),
        complete_legal(graph, constraints, bindings),
        are_units(graph, constraints, units),
        0 <= count < units.len(),
    ensures
        0 <= index < units[count].choices.count(),
        units[count].choices.row(index) =~= units[count].cells@.map_values(
            |cell: CellId| bindings[cell.0 as int],
        ),
{
    let unit = units[count];
    assert(unit.wf(graph, constraints));
    if count < constraints.groups@.len() {
        let group = constraints.groups@[count];
        assert(group_matches(group, bindings));
        let r = choose|r: int|
            0 <= r < group.assignments@.len() && (#[trigger] group.assignments@[r])@ == group_row(
                group,
                bindings,
            );
        assert(units[count].cells@ == group.cells@);
        r
    } else {
        assert(units[count].choices is SingleCell);
        let cell = unit.cells@[0];
        if let PlacementChoices::SingleCell(list) = unit.choices {
            assert(CellId((cell.0 as int) as usize) == cell);
            assert(can_hold(
                graph,
                constraints,
                CellId((cell.0 as int) as usize),
                bindings[cell.0 as int],
            ));
            assert(list@.contains(bindings[cell.0 as int]));
            let i = list@.index_of(bindings[cell.0 as int]);
            assert(unit.choices.row(i) =~= unit.cells@.map_values(
                |cell: CellId| bindings[cell.0 as int],
            ));
            i
        } else {
            0
        }
    }
}

/// A full table that is legal never gets stuck.
proof fn lemma_not_stuck(
    graph: UnifiedGraph<'_>,
    constraints: &PlacementConstraints,
    bindings: Seq<BelId>,
    units: Seq<PlacementUnit>,
    rows: Seq<int>,
    count: int,
)
    requires
        graph.wf(),
        constraints_valid(graph, constraints),
        bindings_fit(graph, constraints, bindings),
        complete_legal(graph, constraints, bindings),
        are_units(graph, constraints, units),
        0 <= count <= units.len(),
        took_first_rows(graph, constraints, full_table(bindings), units, rows, count),
    ensures
        !partial_stuck(graph, constraints, full_table(bindings), units, rows, count),
{
    let cells = graph.design.cells@.len();
    let wanted = full_table(bindings);
    let placed = placed_by(units, rows, count, cells);
    let whole = all_placed(bindings);
    assert(graph.design.cells.len() == cells);
    lemma_first_part(graph, constraints, bindings, units, rows, count);
    lemma_valid_in_range(graph, constraints);
    assert forall|c: int| 0 <= c < whole.len() implies #[trigger] placed[c] is None || placed[c]
        == whole[c] by {}
    legal_parts_are_legal(graph, constraints, placed, whole);
    if count < units.len() {
        let unit = units[count];
        assert(unit.wf(graph, constraints));
        lemma_next_unit_empty(graph, constraints, units, rows, count);
        let j = lemma_row_offered(graph, constraints, bindings, units, count);
        let row = unit.choices.row(j);
        assert(row_fits(graph, constraints, unit.cells@, row));
        let after = with_row(placed, unit.cells@, row);
        assert(cells_in_range(unit.cells@, placed.len() as int)) by {
            assert forall|k: int| 0 <= k < unit.cells@.len() implies (
            #[trigger] unit.cells@[k]).0 < placed.len() by {}
        }
        lemma_with_row(placed, unit.cells@, row);
        assert forall|c: int| 0 <= c < whole.len() implies #[trigger] after[c] is None || after[c]
            == whole[c] by {
            let cell = CellId(c as usize);
            if unit.cells@.contains(cell) {
                let k = unit.cells@.index_of(cell);
                assert(after[unit.cells@[k].0 as int] == Some(row[k]));
            } else {
                assert(after[c] == placed[c]);
            }
        }
        legal_parts_are_legal(graph, constraints, after, whole);
        legal_row_keeps_placement_legal(graph, constraints, placed, unit.cells@, row);
        assert(row_suits(graph, constraints, wanted, units[count], placed, j));
        assert forall|i: int, k: int|
            #[trigger] is_first_suit(graph, constraints, wanted, units[count], placed, i) && 0 <= k
                < units[count].choices.row(i).len() implies !is_taken(
            placed,
            #[trigger] units[count].choices.row(i)[k],
        ) by {
            lemma_agreeing_row(graph, constraints, bindings, unit, placed, i);
            assert(row_fits(graph, constraints, unit.cells@, unit.choices.row(i)));
            let bel = unit.choices.row(i)[k];
            let cell = unit.cells@[k];
            assert(bel == bindings[cell.0 as int]);
            if is_taken(placed, bel) {
                let c = choose|c: int| 0 <= c < placed.len() && #[trigger] placed[c] == Some(bel);
                assert(bindings[c] == bindings[cell.0 as int]);
                assert(c == cell.0);
                assert(placed[unit.cells@[k].0 as int] is None);
            }
        }
    } else {
        assert forall|c: int| 0 <= c < placed.len() implies #[trigger] placed[c] == whole[c] by {
            let cell = CellId(c as usize);
            assert(is_covered(units, cell));
            let u = choose|u: int|
                0 <= u < units.len() && (#[trigger] units[u]).cells@.contains(cell);
            let k = units[u].cells@.index_of(cell);
            assert(units[u].cells@[k] == cell);
            assert(placed[units[u].cells@[k].0 as int] is Some);
        }
        assert(all_placed(bindings) =~= placed);
    }
}

/// Under sound constraints a full binding table gives the same placement whether it
/// is taken as complete or as a partial table that leaves nothing open: both
/// succeed or both fail, and a success binds every cell as the table says.
pub proof fn full_bindings_give_the_same_by_both_ways(
    graph: UnifiedGraph<'_>,
    constraints: &PlacementConstraints,
    bindings: Seq<BelId>,
    complete: Result<Placement, PnrError>,
    partial: Result<Placement, PnrError>,
)
    requires
        graph.wf(),
        constraints_valid(graph, constraints),
        bindings.len() == graph.design.cells@.len(),
        complete_outcome(graph, constraints, bindings, complete),
        partial_outcome(graph, constraints, full_table(bindings), partial),
    ensures
        match (complete, partial) {
            (Ok(a), Ok(b)) => {
                &&& a.same(&b)
                &&& a.bindings@ == bindings
                &&& bindings.no_duplicates()
                &&& forall|g: int|
                    0 <= g < constraints.groups@.len() ==> group_matches(
                        #[trigger] constraints.groups@[g],
                        bindings,
                    )
            },
            (Err(a), Err(b)) => a is InvalidPlacement && b is InvalidPlacement,
            _ => false,
        },
{
    let wanted = full_table(bindings);
    assert(graph.design.cells.len() == graph.design.cells@.len());
    if let Ok(placement) = partial {
        let found = placement.bindings@;
        assert(found.len() == bindings.len());
        assert forall|c: int| 0 <= c < found.len() implies found[c] == #[trigger] bindings[c] by {
            let cell = CellId(c as usize);
            assert(wanted.contains_key(cell));
            assert(placement.bel_of(cell) == Some(wanted[cell]));
        }
        assert(found =~= bindings);
    }
    if let Ok(placement) = complete {
        if partial is Err {
            assert(wanted_known(graph, wanted)) by {
                assert forall|c: CellId| #[trigger] wanted.contains_key(c) implies c.0
                    < graph.design.cells@.len() && wanted[c].0 < graph.device.bels@.len() by {
                    assert(CellId((c.0 as int) as usize) == c);
                    assert(can_hold(
                        graph,
                        constraints,
                        CellId((c.0 as int) as usize),
                        bindings[c.0 as int],
                    ));
                }
            }
            let (units, rows, count) = choose|
                units: Seq<PlacementUnit>,
                rows: Seq<int>,
                count: int,
            |
                {
                    &&& #[trigger] are_units(graph, constraints, units)
                    &&& 0 <= count <= units.len()
                    &&& #[trigger] took_first_rows(
                        graph,
                        constraints,
                        wanted,
                        units,
                        rows,
                        count,
                    )
                    &&& partial_stuck(graph, constraints, wanted, units, rows, count)
                };
            lemma_not_stuck(graph, constraints, bindings, units, rows, count);
        }
    }
    if let (Ok(a), Ok(b)) = (complete, partial) {
        lemma_finished_same(graph, constraints, bindings, a, b);
    }
}

} // verus!
