//! Completion of caller-selected bindings.

use vstd::prelude::*;
use vstd::string::*;

use crate::candidates::{lemma_valid_in_range, CandidateCache};
use crate::device::{Device, UnifiedGraph};
use crate::error::PnrError;
use crate::finish::{all_placed, complete_legal, finish_placement, is_finished, refuse_placement};
use crate::legality::row_is_legal;
use crate::model::{BelId, CellId, Design};
use crate::ordered::OrderedMap;
use crate::placement::Placement;
use crate::placement_constraints::PlacementConstraints;
use crate::placement_edit::{bindings_fit, lemma_fit_binds};
use crate::placement_state::{row_is_free, PlacementState};
use crate::placing::{
    collect_bindings, lemma_all_units_placed, lemma_next_unit_empty, lemma_placed_by,
    lemma_placed_by_prefix, placed_by, rows_chosen,
};
use crate::text::numbered;
use crate::unit_list::{are_units, placement_units, units_refused};
use crate::units::{constraints_valid, row_fits, PlacementUnit};
use crate::usage_model::cells_in_range;

verus! {

/// The row gives each bound cell the BEL that was asked for.
pub open spec fn agrees(
    cells: Seq<CellId>,
    row: Seq<BelId>,
    wanted: Map<CellId, BelId>,
) -> bool {
    forall|k: int|
        0 <= k < cells.len() && wanted.contains_key(#[trigger] cells[k]) ==> wanted[cells[k]]
            == row[k]
}

/// The row agrees with the bindings and shares resources legally.
pub open spec fn row_suits(
    graph: UnifiedGraph<'_>,
    constraints: &PlacementConstraints,
    wanted: Map<CellId, BelId>,
    unit: PlacementUnit,
    placed: Seq<Option<BelId>>,
    index: int,
) -> bool {
    agrees(unit.cells@, unit.choices.row(index), wanted) && row_is_legal(
        graph,
        constraints,
        placed,
        unit.cells@,
        unit.choices.row(index),
    )
}

/// The row is the first that suits.
pub open spec fn is_first_suit(
    graph: UnifiedGraph<'_>,
    constraints: &PlacementConstraints,
    wanted: Map<CellId, BelId>,
    unit: PlacementUnit,
    placed: Seq<Option<BelId>>,
    index: int,
) -> bool {
    &&& 0 <= index < unit.choices.count()
    &&& row_suits(graph, constraints, wanted, unit, placed, index)
    &&& forall|j: int|
        0 <= j < index ==> !#[trigger] row_suits(graph, constraints, wanted, unit, placed, j)
}

/// Each of the first units takes the first row that suits after the units before it.
pub open spec fn took_first_rows(
    graph: UnifiedGraph<'_>,
    constraints: &PlacementConstraints,
    wanted: Map<CellId, BelId>,
    units: Seq<PlacementUnit>,
    rows: Seq<int>,
    count: int,
) -> bool {
    &&& rows.len() >= count
    &&& forall|u: int|
        0 <= u < count ==> is_first_suit(
            graph,
            constraints,
            wanted,
            #[trigger] units[u],
            placed_by(units, rows, u, graph.design.cells@.len()),
            rows[u],
        )
}

/// Every binding names a cell of the design and a BEL of the device.
pub open spec fn wanted_known(graph: UnifiedGraph<'_>, wanted: Map<CellId, BelId>) -> bool {
    forall|c: CellId| #[trigger]
        wanted.contains_key(c) ==> c.0 < graph.design.cells@.len() && wanted[c].0
            < graph.device.bels@.len()
}

/// Whether a row agrees with the bindings.
fn row_agrees(cells: &Vec<CellId>, row: &Vec<BelId>, wanted: &OrderedMap<CellId, BelId>) -> (result:
    bool)
    requires
        cells@.len() == row@.len(),
        wanted.wf(),
    ensures
        result == agrees(cells@, row@, wanted@),
{
    let mut at: usize = 0;
    while at < cells.len()
        invariant
            at <= cells@.len(),
            cells@.len() == row@.len(),
            wanted.wf(),
            forall|k: int|
                0 <= k < at && wanted@.contains_key(#[trigger] cells@[k]) ==> wanted@[cells@[k]]
                    == row@[k],
        decreases cells@.len() - at,
    {
        if let Some(bel) = wanted.get(cells[at]) {
            if *bel != row[at] {
                assert(wanted@.contains_key(cells@[at as int]));
                return false;
            }
        }
        at = at + 1;
    }
    true
}

/// First row of the unit that suits.
fn find_suit(
    graph: &UnifiedGraph<'_>,
    constraints: &PlacementConstraints,
    wanted: &OrderedMap<CellId, BelId>,
    unit: &PlacementUnit,
    state: &mut PlacementState,
) -> (result: Option<usize>)
    requires
        graph.wf(),
        constraints.wf(),
        crate::candidates::bindings_in_range(*graph, constraints),
        wanted.wf(),
        unit.wf(*graph, constraints),
        old(state).wf(*graph, constraints),
        forall|k: int|
            0 <= k < unit.cells@.len() ==> old(state).placed@[(#[trigger] unit.cells@[k]).0 as int]
                is None,
    ensures
        final(state).wf(*graph, constraints),
        final(state).placed == old(state).placed,
        final(state).occupied == old(state).occupied,
        match result {
            Some(index) => is_first_suit(
                *graph,
                constraints,
                wanted@,
                *unit,
                old(state).placed@,
                index as int,
            ),
            None => forall|j: int|
                0 <= j < unit.choices.count() ==> !#[trigger] row_suits(
                    *graph,
                    constraints,
                    wanted@,
                    *unit,
                    old(state).placed@,
                    j,
                ),
        },
{
    let mut index: usize = 0;
    let ghost placed = state.placed@;
    while index < unit.choices.len()
        invariant
            index <= unit.choices.count(),
            graph.wf(),
            constraints.wf(),
            crate::candidates::bindings_in_range(*graph, constraints),
            wanted.wf(),
            unit.wf(*graph, constraints),
            state.wf(*graph, constraints),
            state.placed == old(state).placed,
            state.occupied == old(state).occupied,
            placed == old(state).placed@,
            forall|k: int|
                0 <= k < unit.cells@.len() ==> placed[(#[trigger] unit.cells@[k]).0 as int]
                    is None,
            forall|j: int|
                0 <= j < index ==> !#[trigger] row_suits(
                    *graph,
                    constraints,
                    wanted@,
                    *unit,
                    placed,
                    j,
                ),
        decreases unit.choices.count() - index,
    {
        let row = unit.choices.assignment(index);
        assert(row_fits(*graph, constraints, unit.cells@, unit.choices.row(index as int)));
        if row_agrees(&unit.cells, &row, wanted) {
            assert(cells_in_range(unit.cells@, graph.design.cells@.len() as int));
            if state.is_legal(graph, constraints, &unit.cells, &row) {
                assert(row_suits(*graph, constraints, wanted@, *unit, placed, index as int));
                return Some(index);
            }
        }
        assert(!row_suits(*graph, constraints, wanted@, *unit, placed, index as int));
        index = index + 1;
    }
    None
}

/// Checks that every binding names a cell of the design and a BEL of the device.
fn check_wanted(graph: &UnifiedGraph<'_>, wanted: &OrderedMap<CellId, BelId>) -> (result: Result<
    (),
    PnrError,
>)
    requires
        wanted.wf(),
    ensures
        match result {
            Ok(()) => wanted_known(*graph, wanted@),
            Err(error) => !wanted_known(*graph, wanted@) && error is InvalidPlacement,
        },
{
    let mut index: usize = 0;
    while index < wanted.len()
        invariant
            index <= wanted.ordered().len(),
            wanted.wf(),
            forall|i: int|
                0 <= i < index ==> (#[trigger] wanted.ordered()[i]).0 < graph.design.cells@.len()
                    && wanted@[wanted.ordered()[i]].0 < graph.device.bels@.len(),
        decreases wanted.ordered().len() - index,
    {
        let cell = wanted.key_at(index);
        let bel = *wanted.value_at(index);
        proof {
            wanted.entry(index as int);
        }
        if cell.0 >= graph.design().cells.len() {
            assert(wanted@.contains_key(cell));
            return Err(refuse_placement(numbered("binding names unknown cell ", cell.0, "")));
        }
        if bel.0 >= graph.device().bels.len() {
            assert(wanted@.contains_key(cell));
            return Err(refuse_placement(numbered("binding names unknown BEL ", bel.0, "")));
        }
        index = index + 1;
    }
    proof {
        assert forall|c: CellId| #[trigger] wanted@.contains_key(c) implies c.0
            < graph.design.cells@.len() && wanted@[c].0 < graph.device.bels@.len() by {
            let i = wanted.key_index(c);
            assert(wanted.ordered()[i] == c);
        }
    }
    Ok(())
}

/// What completing the bindings gives.
pub open spec fn partial_outcome(
    graph: UnifiedGraph<'_>,
    constraints: &PlacementConstraints,
    wanted: Map<CellId, BelId>,
    result: Result<Placement, PnrError>,
) -> bool {
    match result {
        Ok(placement) => {
            &&& constraints_valid(graph, constraints)
            &&& wanted_known(graph, wanted)
            &&& bindings_fit(graph, constraints, placement.bindings@)
            &&& is_finished(graph, constraints, placement.bindings@, placement)
            &&& forall|c: CellId| #[trigger]
                wanted.contains_key(c) ==> placement.bel_of(c) == Some(wanted[c])
            &&& exists|units: Seq<PlacementUnit>, rows: Seq<int>|
                {
                    &&& #[trigger] are_units(graph, constraints, units)
                    &&& #[trigger] took_first_rows(
                        graph,
                        constraints,
                        wanted,
                        units,
                        rows,
                        units.len() as int,
                    )
                    &&& all_placed(placement.bindings@) == placed_by(
                        units,
                        rows,
                        units.len() as int,
                        graph.design.cells@.len(),
                    )
                }
        },
        Err(error) => if !constraints_valid(graph, constraints) {
            units_refused(graph, constraints, error)
        } else if !wanted_known(graph, wanted) {
            error is InvalidPlacement
        } else {
            &&& error is InvalidPlacement
            &&& exists|units: Seq<PlacementUnit>, rows: Seq<int>, count: int|
                {
                    &&& #[trigger] are_units(graph, constraints, units)
                    &&& 0 <= count <= units.len()
                    &&& #[trigger] took_first_rows(
                        graph,
                        constraints,
                        wanted,
                        units,
                        rows,
                        count,
                    )
                    &&& partial_stuck(graph, constraints, wanted, units, rows, count)
                }
        },
    }
}

/// No row of the next unit suits, or its first one takes an occupied BEL, or
/// all units are placed and a group or resource is violated.
pub open spec fn partial_stuck(
    graph: UnifiedGraph<'_>,
    constraints: &PlacementConstraints,
    wanted: Map<CellId, BelId>,
    units: Seq<PlacementUnit>,
    rows: Seq<int>,
    count: int,
) -> bool {
    let placed = placed_by(units, rows, count, graph.design.cells@.len());
    if count < units.len() {
        ||| forall|j: int|
            0 <= j < units[count].choices.count() ==> !#[trigger] row_suits(
                graph,
                constraints,
                wanted,
                units[count],
                placed,
                j,
            )
        ||| exists|i: int, k: int|
            {
                &&& #[trigger] is_first_suit(graph, constraints, wanted, units[count], placed, i)
                &&& 0 <= k < units[count].choices.row(i).len()
                &&& crate::placement_state::is_taken(placed, #[trigger] units[count].choices.row(i)[k])
            }
    } else {
        forall|bindings: Seq<BelId>| #[trigger]
            all_placed(bindings) == placed ==> !complete_legal(graph, constraints, bindings)
    }
}

/// First BEL of the row that is occupied.
fn find_occupied(state: &PlacementState, row: &Vec<BelId>) -> (result: Option<usize>)
    requires
        forall|k: int| 0 <= k < row@.len() ==> (#[trigger] row@[k]).0 < state.occupied@.len(),
    ensures
        match result {
            Some(k) => k < row@.len() && state.occupied@[row@[k as int].0 as int],
            None => row_is_free(state.occupied@, row@),
        },
{
    let mut at: usize = 0;
    while at < row.len()
        invariant
            at <= row@.len(),
            forall|k: int| 0 <= k < row@.len() ==> (#[trigger] row@[k]).0 < state.occupied@.len(),
            forall|k: int| 0 <= k < at ==> !state.occupied@[(#[trigger] row@[k]).0 as int],
        decreases row@.len() - at,
    {
        assert(row@[at as int].0 < state.occupied@.len());
        if state.occupied[row[at].0] {
            return Some(at);
        }
        at = at + 1;
    }
    None
}

/// Completes and validates a legal placement from caller-selected bindings.
///
/// Bindings may omit cells that belong to an atomic placement group. The
/// first legal group assignment consistent with every supplied binding is
/// selected, which lets target adapters recover synthetic carry feed-in/out
/// cells from the positions of the shared logical carry chain. Unconstrained
/// omitted cells use their first compatible BEL. No placement optimization is
/// performed.
///
/// # Errors
///
/// Returns an error when a cell/BEL ID is unknown, two completed units overlap,
/// or no legal assignment agrees with the supplied bindings.
pub fn placement_from_partial_bindings(
    design: &Design,
    device: &Device,
    constraints: &PlacementConstraints,
    bindings: &OrderedMap<CellId, BelId>,
) -> (result: Result<Placement, PnrError>)
    requires
        UnifiedGraph::of(design, device).wf(),
        constraints.wf(),
        constraints.groups@.len() + constraints.shared_resources@.len() <= usize::MAX,
        bindings.wf(),
    ensures
        partial_outcome(UnifiedGraph::of(design, device), constraints, bindings@, result),
{
    let graph = UnifiedGraph::new(design, device);
    let mut cache = CandidateCache::new();
    let units = match placement_units(&graph, constraints, &mut cache) {
        Err(error) => {
            return Err(error);
        },
        Ok(units) => units,
    };
    match check_wanted(&graph, bindings) {
        Err(error) => {
            return Err(error);
        },
        Ok(()) => {},
    }
    proof {
        lemma_valid_in_range(graph, constraints);
    }
    let mut state = PlacementState::new(&graph, Ghost(constraints));
    let ghost mut rows: Seq<int> = Seq::empty();
    let ghost cells = graph.design.cells@.len();
    let mut index: usize = 0;
    proof {
        assert(state.placed@ =~= placed_by(units@, rows, 0, cells));
    }
    while index < units.len()
        invariant
            index <= units@.len(),
            graph == UnifiedGraph::of(design, device),
            graph.wf(),
            constraints.wf(),
            constraints_valid(graph, constraints),
            crate::candidates::bindings_in_range(graph, constraints),
            bindings.wf(),
            wanted_known(graph, bindings@),
            are_units(graph, constraints, units@),
            state.wf(graph, constraints),
            cells == graph.design.cells@.len(),
            rows.len() == index,
            rows_chosen(units@, rows, index as int),
            took_first_rows(graph, constraints, bindings@, units@, rows, index as int),
            state.placed@ == placed_by(units@, rows, index as int, cells),
        decreases units@.len() - index,
    {
        let unit = &units[index];
        proof {
            assert(units@[index as int].wf(graph, constraints));
            lemma_next_unit_empty(graph, constraints, units@, rows, index as int);
        }
        let choice: usize = match find_suit(&graph, constraints, bindings, unit, &mut state) {
            None => {
                assert(partial_stuck(graph, constraints, bindings@, units@, rows, index as int));
                return Err(
                    refuse_placement(
                        numbered(
                            "cell group beginning at ",
                            unit.cells[0].0,
                            " has no assignment matching the supplied bindings",
                        ),
                    ),
                );
            },
            Some(choice) => choice,
        };
        let row = unit.choices.assignment(choice);
        proof {
            assert(row_fits(graph, constraints, unit.cells@, unit.choices.row(choice as int)));
            assert forall|k: int| 0 <= k < row@.len() implies (#[trigger] row@[k]).0
                < state.occupied@.len() by {
                assert(crate::candidates::can_hold(graph, constraints, unit.cells@[k], row@[k]));
            }
        }
        if let Some(at) = find_occupied(&state, &row) {
            proof {
                let bel = units@[index as int].choices.row(choice as int)[at as int];
                assert(crate::placement_state::is_taken(state.placed@, bel));
                assert(is_first_suit(
                    graph,
                    constraints,
                    bindings@,
                    units@[index as int],
                    state.placed@,
                    choice as int,
                ));
                assert(partial_stuck(graph, constraints, bindings@, units@, rows, index as int));
            }
            return Err(
                refuse_placement(numbered("BEL ", row[at].0, " is assigned more than once")),
            );
        }
        assert(cells_in_range(unit.cells@, graph.design.cells@.len() as int));
        state.put_row(&graph, constraints, &unit.cells, &row);
        proof {
            let more = rows.push(choice as int);
            lemma_placed_by_prefix(units@, rows, more, index as int, cells);
            assert forall|u: int| 0 <= u < index + 1 implies is_first_suit(
                graph,
                constraints,
                bindings@,
                #[trigger] units@[u],
                placed_by(units@, more, u, cells),
                more[u],
            ) by {
                lemma_placed_by_prefix(units@, rows, more, u, cells);
                if u < index {
                    assert(is_first_suit(
                        graph,
                        constraints,
                        bindings@,
                        units@[u],
                        placed_by(units@, rows, u, cells),
                        rows[u],
                    ));
                }
            }
            assert forall|u: int| 0 <= u < index + 1 implies 0 <= #[trigger] more[u]
                < units@[u].choices.count() by {
                if u < index {
                    assert(0 <= rows[u] < units@[u].choices.count());
                }
            }
            rows = more;
        }
        index = index + 1;
    }
    proof {
        lemma_all_units_placed(graph, constraints, units@, rows, state.placed@);
    }
    let complete = collect_bindings(&state.placed);
    proof {
        assert(bindings_fit(graph, constraints, complete@));
        lemma_fit_binds(graph, constraints, complete@);
        assert forall|c: CellId| #[trigger] bindings@.contains_key(c) implies complete@[c.0 as int]
            == bindings@[c] by {
            lemma_placed_by(graph, constraints, units@, rows, units@.len() as int);
            assert(c.0 < graph.design.cells@.len());
            assert(crate::unit_list::is_covered(units@, c));
            let u = choose|u: int|
                0 <= u < units@.len() && (#[trigger] units@[u]).cells@.contains(c);
            let k = units@[u].cells@.index_of(c);
            assert(units@[u].cells@[k] == c);
            assert(is_first_suit(
                graph,
                constraints,
                bindings@,
                units@[u],
                placed_by(units@, rows, u, cells),
                rows[u],
            ));
            assert(agrees(units@[u].cells@, units@[u].choices.row(rows[u]), bindings@));
            assert(all_placed(complete@)[c.0 as int] == Some(complete@[c.0 as int]));
        }
    }
    let ghost done = complete@;
    let result = finish_placement(&graph, constraints, complete);
    proof {
        if let Err(error) = &result {
            assert(took_first_rows(
                graph,
                constraints,
                bindings@,
                units@,
                rows,
                units@.len() as int,
            ));
            assert forall|other: Seq<BelId>| #[trigger]
                all_placed(other) == state.placed@ implies !complete_legal(
                graph,
                constraints,
                other,
            ) by {
                assert(all_placed(other).len() == other.len());
                assert(all_placed(done).len() == done.len());
                assert forall|c: int| 0 <= c < other.len() implies other[c] == done[c] by {
                    assert(all_placed(other)[c] == Some(other[c]));
                    assert(all_placed(done)[c] == Some(done[c]));
                }
                assert(other =~= done);
            }
            assert(partial_stuck(
                graph,
                constraints,
                bindings@,
                units@,
                rows,
                units@.len() as int,
            ));
        }
    }
    result
}

} // verus!
