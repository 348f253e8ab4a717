//! Complete placements in which every unit stands on one of its rows.

use vstd::prelude::*;

use crate::candidates::{can_hold, lemma_valid_in_range};
use crate::device::UnifiedGraph;
use crate::error::PnrError;
use crate::finish::{all_placed, complete_legal, finish_placement, group_row, is_finished};
use crate::model::{BelId, CellId};
use crate::placement::Placement;
use crate::placement_constraints::PlacementConstraints;
use crate::placement_edit::{bindings_fit, lemma_fit_binds};
use crate::placement_state::PlacementState;
use crate::placing::collect_bindings;
use crate::unit_list::{are_units, is_covered};
use crate::units::{constraints_valid, row_fits, PlacementUnit};

verus! {

/// The unit's cells stand on one row.
pub open spec fn stands_on(unit: PlacementUnit, placed: Seq<Option<BelId>>, index: int) -> bool {
    &&& 0 <= index < unit.choices.count()
    &&& forall|k: int|
        0 <= k < unit.cells@.len() ==> placed[(#[trigger] unit.cells@[k]).0 as int] == Some(
            unit.choices.row(index)[k],
        )
}

/// The unit's cells stand on one of its rows.
pub open spec fn stands(unit: PlacementUnit, placed: Seq<Option<BelId>>) -> bool {
    exists|i: int| #[trigger] stands_on(unit, placed, i)
}

/// Every unit stands on one of its rows.
pub open spec fn units_stand(units: Seq<PlacementUnit>, placed: Seq<Option<BelId>>) -> bool {
    forall|u: int| 0 <= u < units.len() ==> stands(#[trigger] units[u], placed)
}

/// Every cell belongs to a unit.
pub open spec fn units_cover(graph: UnifiedGraph<'_>, units: Seq<PlacementUnit>) -> bool {
    forall|c: CellId| c.0 < graph.design.cells@.len() ==> #[trigger] is_covered(units, c)
}

/// Where every unit stands, each cell has a BEL that can hold it.
pub proof fn lemma_standing_cells(
    graph: UnifiedGraph<'_>,
    constraints: &PlacementConstraints,
    units: Seq<PlacementUnit>,
    placed: Seq<Option<BelId>>,
)
    requires
        forall|u: int| 0 <= u < units.len() ==> (#[trigger] units[u]).wf(graph, constraints),
        units_cover(graph, units),
        placed.len() == graph.design.cells@.len(),
        placed.len() <= usize::MAX,
        units_stand(units, placed),
    ensures
        forall|c: int|
            0 <= c < placed.len() ==> (#[trigger] placed[c]) is Some && can_hold(
                graph,
                constraints,
                CellId(c as usize),
                placed[c]->0,
            ),
{
    assert forall|c: int| 0 <= c < placed.len() implies (#[trigger] placed[c]) is Some && can_hold(
        graph,
        constraints,
        CellId(c as usize),
        placed[c]->0,
    ) by {
        let cell = CellId(c as usize);
        assert(is_covered(units, cell));
        let u = choose|u: int| 0 <= u < units.len() && (#[trigger] units[u]).cells@.contains(cell);
        let k = units[u].cells@.index_of(cell);
        assert(units[u].cells@[k] == cell);
        assert(stands(units[u], placed));
        let i = choose|i: int| #[trigger] stands_on(units[u], placed, i);
        let row = units[u].choices.row(i);
        assert(units[u].wf(graph, constraints));
        assert(row_fits(graph, constraints, units[u].cells@, row));
        assert(placed[units[u].cells@[k].0 as int] == Some(row[k]));
        assert(can_hold(graph, constraints, units[u].cells@[k], row[k]));
    }
}

/// Bindings of a standing, legal placement are complete and legal.
pub proof fn lemma_standing_is_complete(
    graph: UnifiedGraph<'_>,
    constraints: &PlacementConstraints,
    units: Seq<PlacementUnit>,
    state: &PlacementState,
    bindings: Seq<BelId>,
)
    requires
        graph.wf(),
        are_units(graph, constraints, units),
        state.wf(graph, constraints),
        units_stand(units, state.placed@),
        all_placed(bindings) == state.placed@,
    ensures
        bindings_fit(graph, constraints, bindings),
        complete_legal(graph, constraints, bindings),
{
    let placed = state.placed@;
    assert(state.placed.len() == placed.len());
    lemma_standing_cells(graph, constraints, units, placed);
    assert(all_placed(bindings).len() == bindings.len());
    assert forall|c: int| 0 <= c < bindings.len() implies can_hold(
        graph,
        constraints,
        CellId(c as usize),
        #[trigger] bindings[c],
    ) by {
        assert(all_placed(bindings)[c] == Some(bindings[c]));
        assert(placed[c] is Some);
    }
    assert forall|c: int, d: int| 0 <= c < d < bindings.len() implies bindings[c]
        != bindings[d] by {
        assert(all_placed(bindings)[c] == Some(bindings[c]));
        assert(all_placed(bindings)[d] == Some(bindings[d]));
        assert(placed[c] is Some);
        assert(placed[c] != placed[d]);
    }
    assert forall|g: int| 0 <= g < constraints.groups@.len() implies crate::finish::group_matches(
        #[trigger] constraints.groups@[g],
        bindings,
    ) by {
        let group = constraints.groups@[g];
        let unit = units[g];
        assert(unit.cells@ == group.cells@);
        assert(unit.wf(graph, constraints));
        assert(stands(unit, placed));
        let i = choose|i: int| #[trigger] stands_on(unit, placed, i);
        assert(unit.choices.row(i) == group.assignments@[i]@);
        assert(row_fits(graph, constraints, unit.cells@, unit.choices.row(i)));
        assert forall|k: int| 0 <= k < group.cells@.len() implies (
        #[trigger] group.cells@[k]).0 < bindings.len() by {
            assert(unit.cells@[k].0 < graph.design.cells@.len());
        }
        assert forall|k: int| 0 <= k < group.cells@.len() implies group.assignments@[i]@[k]
            == group_row(group, bindings)[k] by {
            let c = unit.cells@[k].0 as int;
            assert(placed[unit.cells@[k].0 as int] == Some(unit.choices.row(i)[k]));
            assert(all_placed(bindings)[c] == Some(bindings[c]));
        }
        assert(group.assignments@[i]@ =~= group_row(group, bindings));
    }
}

/// The finished placement of a standing, legal state.
pub open spec fn is_placement_of(
    graph: UnifiedGraph<'_>,
    constraints: &PlacementConstraints,
    placed: Seq<Option<BelId>>,
    placement: Placement,
) -> bool {
    &&& bindings_fit(graph, constraints, placement.bindings@)
    &&& is_finished(graph, constraints, placement.bindings@, placement)
    &&& all_placed(placement.bindings@) == placed
}

/// Finishes a standing, legal state; this cannot fail.
pub(crate) fn finish_standing(
    graph: &UnifiedGraph<'_>,
    constraints: &PlacementConstraints,
    state: &PlacementState,
    Ghost(units): Ghost<Seq<PlacementUnit>>,
) -> (result: Result<Placement, PnrError>)
    requires
        graph.wf(),
        constraints.wf(),
        constraints_valid(*graph, constraints),
        are_units(*graph, constraints, units),
        state.wf(*graph, constraints),
        units_stand(units, state.placed@),
    ensures
        result matches Ok(placement) && is_placement_of(
            *graph,
            constraints,
            state.placed@,
            placement,
        ),
{
    proof {
        assert(state.placed.len() == state.placed@.len());
        lemma_standing_cells(*graph, constraints, units, state.placed@);
        lemma_valid_in_range(*graph, constraints);
    }
    let bindings = collect_bindings(&state.placed);
    proof {
        lemma_standing_is_complete(*graph, constraints, units, state, bindings@);
        lemma_fit_binds(*graph, constraints, bindings@);
    }
    finish_placement(graph, constraints, bindings)
}

} // verus!
