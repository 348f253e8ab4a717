//! Placing the units of a problem one after the other.

use vstd::prelude::*;

use crate::candidates::can_hold;
use crate::device::UnifiedGraph;
use crate::finish::all_placed;
use crate::model::{BelId, CellId};
use crate::placement_constraints::PlacementConstraints;
use crate::placement_edit::bindings_fit;
use crate::placement_state::all_apart;
use crate::unit_list::{is_covered, units_disjoint};
use crate::units::{row_fits, PlacementUnit};
use crate::usage_model::{cells_in_range, lemma_with_row, with_row};

verus! {

/// The slots once the first units stand on their rows.
pub open spec fn placed_by(
    units: Seq<PlacementUnit>,
    rows: Seq<int>,
    count: int,
    cells: nat,
) -> Seq<Option<BelId>>
    decreases count,
{
    if count <= 0 {
        Seq::new(cells, |c: int| None)
    } else {
        with_row(
            placed_by(units, rows, count - 1, cells),
            units[count - 1].cells@,
            units[count - 1].choices.row(rows[count - 1]),
        )
    }
}

/// Each unit places known cells on rows that fit.
pub open spec fn units_wf(
    graph: UnifiedGraph<'_>,
    constraints: &PlacementConstraints,
    units: Seq<PlacementUnit>,
) -> bool {
    &&& forall|u: int| 0 <= u < units.len() ==> (#[trigger] units[u]).wf(graph, constraints)
    &&& units_disjoint(units)
}

/// The first units have chosen rows of theirs.
pub open spec fn rows_chosen(units: Seq<PlacementUnit>, rows: Seq<int>, count: int) -> bool {
    &&& count <= units.len()
    &&& rows.len() >= count
    &&& forall|u: int|
        0 <= u < count ==> 0 <= #[trigger] rows[u] < units[u].choices.count()
}

/// The cell does not belong to the first units.
pub open spec fn is_later(units: Seq<PlacementUnit>, cell: CellId, count: int) -> bool {
    forall|u: int| 0 <= u < count ==> !(#[trigger] units[u]).cells@.contains(cell)
}

/// Slots of the first units are filled by their rows, all others are empty.
pub proof fn lemma_placed_by(
    graph: UnifiedGraph<'_>,
    constraints: &PlacementConstraints,
    units: Seq<PlacementUnit>,
    rows: Seq<int>,
    count: int,
)
    requires
        graph.wf(),
        units_wf(graph, constraints, units),
        0 <= count,
        rows_chosen(units, rows, count),
    ensures
        placed_by(units, rows, count, graph.design.cells@.len()).len()
            == graph.design.cells@.len(),
        forall|u: int, k: int|
            #![trigger units[u].cells@[k]]
            0 <= u < count && 0 <= k < units[u].cells@.len() ==> placed_by(
                units,
                rows,
                count,
                graph.design.cells@.len(),
            )[units[u].cells@[k].0 as int] == Some(units[u].choices.row(rows[u])[k]),
        forall|c: int|
            0 <= c < graph.design.cells@.len() && is_later(units, CellId(c as usize), count)
                ==> #[trigger] placed_by(units, rows, count, graph.design.cells@.len())[c] is None,
    decreases count,
{
    let cells = graph.design.cells@.len();
    if count > 0 {
        let last = count - 1;
        lemma_placed_by(graph, constraints, units, rows, last);
        let earlier = placed_by(units, rows, last, cells);
        let later = placed_by(units, rows, count, cells);
        let unit = units[last];
        let row = unit.choices.row(rows[last]);
        assert(unit.wf(graph, constraints));
        assert(row_fits(graph, constraints, unit.cells@, row));
        assert(cells_in_range(unit.cells@, earlier.len() as int)) by {
            assert forall|k: int| 0 <= k < unit.cells@.len() implies (
            #[trigger] unit.cells@[k]).0 < earlier.len() by {}
        }
        lemma_with_row(earlier, unit.cells@, row);
        assert(graph.design.cells.len() == graph.design.cells@.len());
        assert forall|u: int, k: int|
            #![trigger units[u].cells@[k]]
            0 <= u < count && 0 <= k < units[u].cells@.len() implies later[units[u].cells@[k].0 as int]
            == Some(units[u].choices.row(rows[u])[k]) by {
            if u < last {
                assert(units[u].wf(graph, constraints));
                let cell = units[u].cells@[k];
                assert(cell.0 < cells);
                if unit.cells@.contains(cell) {
                    let l = unit.cells@.index_of(cell);
                    assert(units[last].cells@[l] == units[u].cells@[k]);
                }
                assert(CellId(cell.0 as int as usize) == cell);
                assert(later[cell.0 as int] == earlier[cell.0 as int]);
            } else {
                assert(later[unit.cells@[k].0 as int] == Some(row[k]));
            }
        }
        assert forall|c: int|
            0 <= c < cells && is_later(units, CellId(c as usize), count) implies #[trigger] later[c]
            is None by {
            assert(!units[last].cells@.contains(CellId(c as usize)));
            assert(is_later(units, CellId(c as usize), last));
            assert(later[c] == earlier[c]);
            assert(earlier[c] is None);
        }
    }
}

/// The slots of the next unit are empty.
pub proof fn lemma_next_unit_empty(
    graph: UnifiedGraph<'_>,
    constraints: &PlacementConstraints,
    units: Seq<PlacementUnit>,
    rows: Seq<int>,
    count: int,
)
    requires
        graph.wf(),
        units_wf(graph, constraints, units),
        0 <= count < units.len(),
        rows_chosen(units, rows, count),
    ensures
        forall|k: int|
            0 <= k < units[count].cells@.len() ==> placed_by(
                units,
                rows,
                count,
                graph.design.cells@.len(),
            )[(#[trigger] units[count].cells@[k]).0 as int] is None,
{
    lemma_placed_by(graph, constraints, units, rows, count);
    let cells = graph.design.cells@.len();
    assert(units[count].wf(graph, constraints));
    assert forall|k: int| 0 <= k < units[count].cells@.len() implies placed_by(
        units,
        rows,
        count,
        cells,
    )[(#[trigger] units[count].cells@[k]).0 as int] is None by {
        let cell = units[count].cells@[k];
        assert(cell.0 < cells);
        assert(CellId(cell.0 as int as usize) == cell);
        assert(is_later(units, cell, count)) by {
            assert forall|u: int| 0 <= u < count implies !(#[trigger] units[u]).cells@.contains(
                cell,
            ) by {
                if units[u].cells@.contains(cell) {
                    let l = units[u].cells@.index_of(cell);
                    assert(units[u].cells@[l] == units[count].cells@[k]);
                }
            }
        }
    }
}

/// The rows beyond the chosen ones do not matter.
pub proof fn lemma_placed_by_prefix(
    units: Seq<PlacementUnit>,
    rows: Seq<int>,
    more: Seq<int>,
    count: int,
    cells: nat,
)
    requires
        0 <= count <= rows.len(),
        rows.len() <= more.len(),
        forall|u: int| 0 <= u < count ==> #[trigger] more[u] == rows[u],
    ensures
        placed_by(units, more, count, cells) == placed_by(units, rows, count, cells),
    decreases count,
{
    if count > 0 {
        lemma_placed_by_prefix(units, rows, more, count - 1, cells);
        assert(more[count - 1] == rows[count - 1]);
    }
}

/// With every unit placed, each cell has a BEL of its own that can hold it.
pub proof fn lemma_all_units_placed(
    graph: UnifiedGraph<'_>,
    constraints: &PlacementConstraints,
    units: Seq<PlacementUnit>,
    rows: Seq<int>,
    placed: Seq<Option<BelId>>,
)
    requires
        graph.wf(),
        units_wf(graph, constraints, units),
        rows_chosen(units, rows, units.len() as int),
        forall|c: CellId| c.0 < graph.design.cells@.len() ==> #[trigger] is_covered(units, c),
        placed == placed_by(units, rows, units.len() as int, graph.design.cells@.len()),
        all_apart(placed),
    ensures
        placed.len() == graph.design.cells@.len(),
        forall|c: int| 0 <= c < placed.len() ==> #[trigger] placed[c] is Some,
        forall|bindings: Seq<BelId>| #[trigger]
            all_placed(bindings) == placed ==> bindings_fit(graph, constraints, bindings),
{
    lemma_placed_by(graph, constraints, units, rows, units.len() as int);
    assert(graph.design.cells.len() == graph.design.cells@.len());
    assert forall|c: int| 0 <= c < placed.len() implies #[trigger] placed[c] is Some && can_hold(
        graph,
        constraints,
        CellId(c as usize),
        placed[c]->0,
    ) by {
        let cell = CellId(c as usize);
        assert(is_covered(units, cell));
        let u = choose|u: int| 0 <= u < units.len() && (#[trigger] units[u]).cells@.contains(cell);
        let k = units[u].cells@.index_of(cell);
        assert(units[u].cells@[k] == cell);
        assert(units[u].wf(graph, constraints));
        assert(0 <= rows[u] < units[u].choices.count());
        let row = units[u].choices.row(rows[u]);
        assert(row_fits(graph, constraints, units[u].cells@, row));
        assert(can_hold(graph, constraints, units[u].cells@[k], row[k]));
    }
    assert forall|bindings: Seq<BelId>| #[trigger] all_placed(bindings) == placed implies bindings_fit(
        graph,
        constraints,
        bindings,
    ) by {
        assert(all_placed(bindings).len() == bindings.len());
        assert forall|c: int| 0 <= c < bindings.len() implies can_hold(
            graph,
            constraints,
            CellId(c as usize),
            #[trigger] bindings[c],
        ) by {
            assert(all_placed(bindings)[c] == Some(bindings[c]));
            assert(placed[c] is Some);
        }
        assert forall|c: int, d: int| 0 <= c < d < bindings.len() implies bindings[c]
            != bindings[d] by {
            assert(all_placed(bindings)[c] == Some(bindings[c]));
            assert(all_placed(bindings)[d] == Some(bindings[d]));
            assert(placed[c] is Some);
            assert(placed[c] != placed[d]);
        }
    }
}

/// BELs of slots that are all filled.
pub(crate) fn collect_bindings(placed: &Vec<Option<BelId>>) -> (result: Vec<BelId>)
    requires
        forall|c: int| 0 <= c < placed@.len() ==> #[trigger] placed@[c] is Some,
    ensures
        all_placed(result@) == placed@,
{
    let mut result: Vec<BelId> = Vec::new();
    let mut index: usize = 0;
    while index < placed.len()
        invariant
            index <= placed@.len(),
            forall|c: int| 0 <= c < placed@.len() ==> #[trigger] placed@[c] is Some,
            result@.len() == index,
            forall|c: int| 0 <= c < index ==> Some(#[trigger] result@[c]) == placed@[c],
        decreases placed@.len() - index,
    {
        assert(placed@[index as int] is Some);
        if let Some(bel) = placed[index] {
            result.push(bel);
        }
        index = index + 1;
    }
    assert(all_placed(result@) =~= placed@);
    result
}

} // verus!
