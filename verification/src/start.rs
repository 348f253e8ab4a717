//! Start of a refinement: spatial indexes, and a validated placement as a state.

use std::sync::Arc;

use vstd::prelude::*;
use vstd::string::*;

use crate::candidates::{bindings_in_range, can_hold};
use crate::device::{Device, UnifiedGraph};
use crate::error::PnrError;
use crate::finish::{
    all_placed, complete_legal, legal_parts_are_legal, refuse_placement,
    validate_complete_placement_resources,
};
use crate::legality::legal_row_keeps_placement_legal;
use crate::model::{BelId, CellId};
use crate::ordered::{same_keys, OrderedSet};
use crate::placement::Placement;
use crate::placement_constraints::{shares_allocation, PlacementConstraints};
use crate::placement_state::{is_taken, PlacementState};
use crate::refine::all_indexed;
use crate::routing_costs::share;
use crate::spatial::{begins_at, choices_on_device, tile, SpatialChoiceIndex};
use crate::standing::{stands, stands_on, units_cover, units_stand};
use crate::text::{numbered, twice_numbered};
use crate::unit_list::{are_units, is_covered, units_disjoint};
use crate::units::{row_fits, PlacementChoices, PlacementUnit};
use crate::usage_model::{cells_in_range, lemma_with_row, with_row};

verus! {

/// Choices and their index.
pub struct SpatialEntry {
    /// Indexed choices.
    pub choices: PlacementChoices,
    /// Index.
    pub index: Arc<SpatialChoiceIndex>,
}

/// Every index is that of its choices.
pub open spec fn entries_hold(entries: Seq<SpatialEntry>, device: &Device) -> bool {
    forall|i: int|
        0 <= i < entries.len() ==> (#[trigger] entries[i]).index.indexes(entries[i].choices, device)
}

/// Whether the choices share one allocation.
fn same_choices(a: &PlacementChoices, b: &PlacementChoices) -> (result: bool)
    ensures
        result ==> *a == *b,
{
    match (a, b) {
        (PlacementChoices::Shared(a), PlacementChoices::Shared(b)) => shares_allocation(a, b),
        (PlacementChoices::SingleCell(a), PlacementChoices::SingleCell(b)) => shares_allocation(
            a,
            b,
        ),
        _ => false,
    }
}

/// A handle of the same choices.
fn share_choices(choices: &PlacementChoices) -> (result: PlacementChoices)
    ensures
        result == *choices,
{
    match choices {
        PlacementChoices::Shared(table) => PlacementChoices::Shared(share(table)),
        PlacementChoices::SingleCell(list) => PlacementChoices::SingleCell(share(list)),
    }
}

/// Rows of a unit begin with BELs of the device.
pub proof fn lemma_unit_on_device(
    graph: UnifiedGraph<'_>,
    constraints: &PlacementConstraints,
    unit: PlacementUnit,
)
    requires
        unit.wf(graph, constraints),
    ensures
        choices_on_device(unit.choices, graph.device),
{
    assert forall|i: int| 0 <= i < unit.choices.count() implies (
    #[trigger] unit.choices.row(i)).len() > 0 && unit.choices.row(i)[0].0
        < graph.device.bels@.len() by {
        assert(row_fits(graph, constraints, unit.cells@, unit.choices.row(i)));
        assert(can_hold(graph, constraints, unit.cells@[0], unit.choices.row(i)[0]));
    }
}

/// Index of one unit's choices, shared by all units with the same choices.
fn find_or_index(
    entries: &mut Vec<SpatialEntry>,
    choices: &PlacementChoices,
    device: &Device,
) -> (result: Arc<SpatialChoiceIndex>)
    requires
        device.wf(),
        choices_on_device(*choices, device),
        entries_hold(old(entries)@, device),
    ensures
        entries_hold(final(entries)@, device),
        result.indexes(*choices, device),
{
    let mut at: usize = 0;
    while at < entries.len()
        invariant
            at <= entries@.len(),
            entries_hold(entries@, device),
        decreases entries@.len() - at,
    {
        if same_choices(&entries[at].choices, choices) {
            assert(entries@[at as int].index.indexes(entries@[at as int].choices, device));
            return share(&entries[at].index);
        }
        at = at + 1;
    }
    let index = Arc::new(SpatialChoiceIndex::new(choices, device));
    entries.push(SpatialEntry { choices: share_choices(choices), index: share(&index) });
    index
}

/// Indexes of the choices of every unit.
pub(crate) fn index_units(
    graph: &UnifiedGraph<'_>,
    units: &Vec<PlacementUnit>,
    entries: &mut Vec<SpatialEntry>,
    Ghost(constraints): Ghost<&PlacementConstraints>,
) -> (result: Vec<Arc<SpatialChoiceIndex>>)
    requires
        graph.wf(),
        forall|u: int|
            0 <= u < units@.len() ==> (#[trigger] units@[u]).wf(*graph, constraints),
        entries_hold(old(entries)@, graph.device),
    ensures
        entries_hold(final(entries)@, graph.device),
        all_indexed(*graph, units@, result@),
{
    let mut result: Vec<Arc<SpatialChoiceIndex>> = Vec::new();
    let mut index: usize = 0;
    while index < units.len()
        invariant
            index <= units@.len(),
            graph.wf(),
            forall|u: int|
                0 <= u < units@.len() ==> (#[trigger] units@[u]).wf(*graph, constraints),
            entries_hold(entries@, graph.device),
            result@.len() == index,
            forall|u: int|
                0 <= u < index ==> (#[trigger] result@[u]).indexes(
                    units@[u].choices,
                    graph.device,
                ),
        decreases units@.len() - index,
    {
        proof {
            assert(units@[index as int].wf(*graph, constraints));
            lemma_unit_on_device(*graph, constraints, units@[index as int]);
        }
        result.push(find_or_index(entries, &units[index].choices, graph.device()));
        index = index + 1;
    }
    result
}

/// The placement can be refined: complete, on BELs of their own, every unit on
/// one of its rows, and legal.
pub open spec fn starts_legal(
    graph: UnifiedGraph<'_>,
    constraints: &PlacementConstraints,
    units: Seq<PlacementUnit>,
    bindings: Seq<BelId>,
) -> bool {
    &&& bindings.len() == graph.design.cells@.len()
    &&& forall|c: int|
        0 <= c < bindings.len() ==> (#[trigger] bindings[c]).0 < graph.device.bels@.len()
    &&& bindings.no_duplicates()
    &&& units_stand(units, all_placed(bindings))
    &&& complete_legal(graph, constraints, bindings)
}

/// Checks that the BELs are known and that none is used twice.
fn check_bels(graph: &UnifiedGraph<'_>, bindings: &Vec<BelId>) -> (result: Result<(), PnrError>)
    ensures
        match result {
            Ok(()) => bindings@.no_duplicates() && forall|c: int|
                0 <= c < bindings@.len() ==> (#[trigger] bindings@[c]).0
                    < graph.device.bels@.len(),
            Err(error) => error is InvalidPlacement && !(bindings@.no_duplicates() && forall|
                c: int,
            |
                0 <= c < bindings@.len() ==> (#[trigger] bindings@[c]).0
                    < graph.device.bels@.len()),
        },
{
    let mut occupied: OrderedSet<BelId> = OrderedSet::new();
    let mut at: usize = 0;
    while at < bindings.len()
        invariant
            at <= bindings@.len(),
            occupied.wf(),
            occupied@ == bindings@.take(at as int).to_set(),
            bindings@.take(at as int).no_duplicates(),
            forall|c: int|
                0 <= c < at ==> (#[trigger] bindings@[c]).0 < graph.device.bels@.len(),
        decreases bindings@.len() - at,
    {
        let bel = bindings[at];
        if bel.0 >= graph.device().bels.len() {
            assert(bindings@[at as int].0 >= graph.device.bels@.len());
            return Err(refuse_placement(numbered("binding names unknown BEL ", bel.0, "")));
        }
        proof {
            crate::ordered::lemma_take_step(bindings@, at as int);
            assert(bindings@.take(at + 1) =~= bindings@.take(at as int).push(bel));
        }
        if !occupied.insert(bel) {
            proof {
                assert(bindings@.take(at as int).contains(bel));
                let k = bindings@.take(at as int).index_of(bel);
                assert(bindings@[k] == bindings@[at as int]);
            }
            return Err(
                refuse_placement(numbered("BEL ", bel.0, " is assigned more than once")),
            );
        }
        assert(!bindings@.take(at as int).contains(bel));
        at = at + 1;
    }
    assert(bindings@.take(at as int) =~= bindings@);
    Ok(())
}

/// Row of the unit's cells.
pub(crate) fn unit_row(unit: &PlacementUnit, bindings: &Vec<BelId>) -> (result: Vec<BelId>)
    requires
        forall|k: int|
            0 <= k < unit.cells@.len() ==> (#[trigger] unit.cells@[k]).0 < bindings@.len(),
    ensures
        result@.len() == unit.cells@.len(),
        forall|k: int|
            0 <= k < result@.len() ==> #[trigger] result@[k]
                == bindings@[unit.cells@[k].0 as int],
{
    let mut result: Vec<BelId> = Vec::new();
    let mut at: usize = 0;
    while at < unit.cells.len()
        invariant
            at <= unit.cells@.len(),
            forall|k: int|
                0 <= k < unit.cells@.len() ==> (#[trigger] unit.cells@[k]).0 < bindings@.len(),
            result@.len() == at,
            forall|k: int|
                0 <= k < result@.len() ==> #[trigger] result@[k]
                    == bindings@[unit.cells@[k].0 as int],
        decreases unit.cells@.len() - at,
    {
        assert(unit.cells@[at as int].0 < bindings@.len());
        result.push(bindings[unit.cells[at].0]);
        at = at + 1;
    }
    result
}

/// Whether the unit stands on one of its rows.
fn unit_stands(
    graph: &UnifiedGraph<'_>,
    unit: &PlacementUnit,
    spatial: &SpatialChoiceIndex,
    bindings: &Vec<BelId>,
    Ghost(constraints): Ghost<&PlacementConstraints>,
) -> (result: bool)
    requires
        graph.wf(),
        unit.wf(*graph, constraints),
        spatial.indexes(unit.choices, graph.device),
        bindings@.len() == graph.design.cells@.len(),
        forall|c: int|
            0 <= c < bindings@.len() ==> (#[trigger] bindings@[c]).0 < graph.device.bels@.len(),
    ensures
        result == stands(*unit, all_placed(bindings@)),
{
    let row = unit_row(unit, bindings);
    let ghost placed = all_placed(bindings@);
    assert(unit.cells@[0].0 < bindings@.len());
    assert(row@[0] == bindings@[unit.cells@[0].0 as int]);
    let point = graph.device().bels[row[0].0].point;
    let bucket = spatial.at(graph.device(), point);
    proof {
        assert forall|i: int| #[trigger] stands_on(*unit, placed, i) <==> 0 <= i
            < unit.choices.count() && unit.choices.row(i) == row@ by {
            if stands_on(*unit, placed, i) {
                assert(row_fits(*graph, constraints, unit.cells@, unit.choices.row(i)));
                assert forall|k: int| 0 <= k < row@.len() implies unit.choices.row(i)[k]
                    == row@[k] by {
                    assert(placed[unit.cells@[k].0 as int] == Some(unit.choices.row(i)[k]));
                    assert(placed[unit.cells@[k].0 as int] == Some(
                        bindings@[unit.cells@[k].0 as int],
                    ));
                }
                assert(unit.choices.row(i) =~= row@);
            }
            if 0 <= i < unit.choices.count() && unit.choices.row(i) == row@ {
                assert forall|k: int| 0 <= k < unit.cells@.len() implies placed[(
                #[trigger] unit.cells@[k]).0 as int] == Some(unit.choices.row(i)[k]) by {
                    assert(row@[k] == bindings@[unit.cells@[k].0 as int]);
                }
            }
        }
        assert forall|i: usize| #[trigger] bucket@.contains(i) <==> begins_at(
            unit.choices,
            graph.device,
            i as int,
            point,
        ) by {
            assert(spatial.by_point@[tile(graph.device, point)]@.contains(i) <==> begins_at(
                unit.choices,
                graph.device,
                i as int,
                point,
            ));
        }
    }
    let mut at: usize = 0;
    while at < bucket.len()
        invariant
            at <= bucket@.len(),
            forall|i: usize| #[trigger]
                bucket@.contains(i) <==> begins_at(
                    unit.choices,
                    graph.device,
                    i as int,
                    point,
                ),
            forall|i: int| #[trigger]
                stands_on(*unit, placed, i) <==> 0 <= i < unit.choices.count() && unit.choices.row(
                    i,
                ) == row@,
            placed == all_placed(bindings@),
            forall|k: int| 0 <= k < at ==> unit.choices.row((#[trigger] bucket@[k]) as int) != row@,
        decreases bucket@.len() - at,
    {
        let choice: usize = bucket[at];
        assert(bucket@.contains(bucket@[at as int]));
        if same_keys(&unit.choices.assignment(choice), &row) {
            assert(stands_on(*unit, placed, choice as int));
            return true;
        }
        at = at + 1;
    }
    proof {
        assert forall|i: int| !#[trigger] stands_on(*unit, placed, i) by {
            if stands_on(*unit, placed, i) {
                assert(unit.choices.row(i) == row@);
                let number = unit.choices.count();
                assert(number <= usize::MAX) by {
                    match unit.choices {
                        PlacementChoices::Shared(table) => {
                            assert(table.len() == table@.len());
                        },
                        PlacementChoices::SingleCell(list) => {
                            assert(list.len() == list@.len());
                        },
                    }
                }
                assert(begins_at(unit.choices, graph.device, i as usize as int, point));
                assert(bucket@.contains(i as usize));
                let k = bucket@.index_of(i as usize);
                assert(unit.choices.row(bucket@[k] as int) != row@);
            }
        }
    }
    false
}

/// The first units placed, the others not.
spec fn units_loaded(
    units: Seq<PlacementUnit>,
    placed: Seq<Option<BelId>>,
    whole: Seq<Option<BelId>>,
    count: int,
) -> bool {
    &&& placed.len() == whole.len()
    &&& forall|u: int, k: int|
        #![trigger units[u].cells@[k]]
        0 <= u < units.len() && 0 <= k < units[u].cells@.len()
            ==> placed[units[u].cells@[k].0 as int] == if u < count {
            whole[units[u].cells@[k].0 as int]
        } else {
            None
        }
}

/// What is loaded is part of the whole.
proof fn lemma_loaded_part(
    graph: UnifiedGraph<'_>,
    units: Seq<PlacementUnit>,
    placed: Seq<Option<BelId>>,
    whole: Seq<Option<BelId>>,
    count: int,
)
    requires
        units_cover(graph, units),
        whole.len() == graph.design.cells@.len(),
        whole.len() <= usize::MAX,
        units_loaded(units, placed, whole, count),
    ensures
        forall|c: int|
            0 <= c < whole.len() ==> #[trigger] placed[c] is None || placed[c] == whole[c],
        count >= units.len() ==> placed == whole,
{
    assert forall|c: int| 0 <= c < whole.len() implies #[trigger] placed[c] is None || placed[c]
        == whole[c] by {
        let cell = CellId(c as usize);
        assert(is_covered(units, cell));
        let u = choose|u: int| 0 <= u < units.len() && (#[trigger] units[u]).cells@.contains(cell);
        let k = units[u].cells@.index_of(cell);
        assert(units[u].cells@[k] == cell);
    }
    if count >= units.len() {
        assert forall|c: int| 0 <= c < whole.len() implies placed[c] == whole[c] by {
            let cell = CellId(c as usize);
            assert(is_covered(units, cell));
            let u = choose|u: int|
                0 <= u < units.len() && (#[trigger] units[u]).cells@.contains(cell);
            let k = units[u].cells@.index_of(cell);
            assert(units[u].cells@[k] == cell);
        }
        assert(placed =~= whole);
    }
}

/// Loads a legal placement, unit after unit.
fn load_state(
    graph: &UnifiedGraph<'_>,
    constraints: &PlacementConstraints,
    units: &Vec<PlacementUnit>,
    bindings: &Vec<BelId>,
) -> (result: PlacementState)
    requires
        graph.wf(),
        constraints.wf(),
        bindings_in_range(*graph, constraints),
        forall|u: int|
            0 <= u < units@.len() ==> (#[trigger] units@[u]).wf(*graph, constraints),
        units_disjoint(units@),
        units_cover(*graph, units@),
        starts_legal(*graph, constraints, units@, bindings@),
    ensures
        result.wf(*graph, constraints),
        result.placed@ == all_placed(bindings@),
{
    let ghost whole = all_placed(bindings@);
    let mut state = PlacementState::new(graph, Ghost(constraints));
    let mut index: usize = 0;
    proof {
        assert(bindings.len() == bindings@.len());
        assert forall|u: int, k: int|
            #![trigger units@[u].cells@[k]]
            0 <= u < units@.len() && 0 <= k < units@[u].cells@.len() implies state.placed@[units@[u].cells@[k].0 as int]
            is None by {
            assert(units@[u].wf(*graph, constraints));
        }
    }
    while index < units.len()
        invariant
            index <= units@.len(),
            graph.wf(),
            constraints.wf(),
            bindings_in_range(*graph, constraints),
            forall|u: int|
                0 <= u < units@.len() ==> (#[trigger] units@[u]).wf(*graph, constraints),
            units_disjoint(units@),
            units_cover(*graph, units@),
            starts_legal(*graph, constraints, units@, bindings@),
            whole == all_placed(bindings@),
            whole.len() <= usize::MAX,
            state.wf(*graph, constraints),
            units_loaded(units@, state.placed@, whole, index as int),
        decreases units@.len() - index,
    {
        let unit = &units[index];
        let ghost before = state.placed@;
        assert(units@[index as int].wf(*graph, constraints));
        let row = unit_row(unit, bindings);
        let ghost after = with_row(before, unit.cells@, row@);
        proof {
            lemma_loaded_part(*graph, units@, before, whole, index as int);
            lemma_load_step(
                *graph,
                constraints,
                units@,
                bindings@,
                before,
                index as int,
                row@,
            );
            assert forall|c: int| 0 <= c < whole.len() implies #[trigger] after[c] is None
                || after[c] == whole[c] by {
                lemma_loaded_part(*graph, units@, after, whole, index + 1);
            }
            legal_parts_are_legal(*graph, constraints, after, whole);
            assert forall|k: int| 0 <= k < unit.cells@.len() implies before[(
            #[trigger] unit.cells@[k]).0 as int] is None by {
                assert(before[units@[index as int].cells@[k].0 as int] is None);
            }
            legal_row_keeps_placement_legal(*graph, constraints, before, unit.cells@, row@);
            assert forall|k: int| 0 <= k < row@.len() implies (#[trigger] row@[k]).0
                < state.occupied@.len() && !state.occupied@[row@[k].0 as int] by {
                let c = unit.cells@[k].0 as int;
                assert(row@[k] == bindings@[c]);
                if state.occupied@[row@[k].0 as int] {
                    assert(is_taken(before, row@[k]));
                    let d = choose|d: int|
                        0 <= d < before.len() && #[trigger] before[d] == Some(row@[k]);
                    assert(before[d] == whole[d]);
                    assert(whole[d] == Some(bindings@[d]));
                    assert(bindings@[d] == bindings@[c]);
                    assert(before[unit.cells@[k].0 as int] is None);
                    assert(d != c);
                }
            }
        }
        state.put_row(graph, constraints, &unit.cells, &row);
        index = index + 1;
    }
    proof {
        lemma_loaded_part(*graph, units@, state.placed@, whole, index as int);
    }
    state
}

/// Placing the next unit loads one unit more.
proof fn lemma_load_step(
    graph: UnifiedGraph<'_>,
    constraints: &PlacementConstraints,
    units: Seq<PlacementUnit>,
    bindings: Seq<BelId>,
    before: Seq<Option<BelId>>,
    index: int,
    row: Seq<BelId>,
)
    requires
        graph.wf(),
        forall|u: int| 0 <= u < units.len() ==> (#[trigger] units[u]).wf(graph, constraints),
        units_disjoint(units),
        starts_legal(graph, constraints, units, bindings),
        0 <= index < units.len(),
        units_loaded(units, before, all_placed(bindings), index),
        row.len() == units[index].cells@.len(),
        forall|k: int|
            0 <= k < row.len() ==> #[trigger] row[k] == bindings[units[index].cells@[k].0 as int],
    ensures
        units_loaded(
            units,
            with_row(before, units[index].cells@, row),
            all_placed(bindings),
            index + 1,
        ),
        row.no_duplicates(),
        cells_in_range(units[index].cells@, before.len() as int),
{
    let cells = units[index].cells@;
    let whole = all_placed(bindings);
    let after = with_row(before, cells, row);
    assert(units[index].wf(graph, constraints));
    assert(cells_in_range(cells, before.len() as int));
    lemma_with_row(before, cells, row);
    assert forall|a: int, b: int| 0 <= a < b < row.len() implies row[a] != row[b] by {
        assert(row[a] == bindings[cells[a].0 as int]);
        assert(row[b] == bindings[cells[b].0 as int]);
        assert(cells[a] != cells[b]);
    }
    assert forall|u: int, k: int|
        #![trigger units[u].cells@[k]]
        0 <= u < units.len() && 0 <= k < units[u].cells@.len() implies after[units[u].cells@[k].0 as int]
        == if u < index + 1 {
        whole[units[u].cells@[k].0 as int]
    } else {
        None
    } by {
        let cell = units[u].cells@[k];
        assert(units[u].wf(graph, constraints));
        if u == index {
            assert(after[cells[k].0 as int] == Some(row[k]));
        } else {
            if cells.contains(cell) {
                let l = cells.index_of(cell);
                assert(units[index].cells@[l] == units[u].cells@[k]);
            }
            assert(CellId(cell.0 as int as usize) == cell);
            assert(after[cell.0 as int] == before[cell.0 as int]);
        }
    }
}

/// Validates a placement that is to be refined, and loads it.
pub(crate) fn validate_refinement_start(
    graph: &UnifiedGraph<'_>,
    constraints: &PlacementConstraints,
    units: &Vec<PlacementUnit>,
    spatial: &Vec<Arc<SpatialChoiceIndex>>,
    placement: &Placement,
) -> (result: Result<PlacementState, PnrError>)
    requires
        graph.wf(),
        constraints.wf(),
        bindings_in_range(*graph, constraints),
        are_units(*graph, constraints, units@),
        all_indexed(*graph, units@, spatial@),
    ensures
        match result {
            Ok(state) => {
                &&& starts_legal(*graph, constraints, units@, placement.bindings@)
                &&& state.wf(*graph, constraints)
                &&& state.placed@ == all_placed(placement.bindings@)
            },
            Err(error) => {
                &&& error is InvalidPlacement
                &&& !starts_legal(*graph, constraints, units@, placement.bindings@)
            },
        },
{
    let bindings = &placement.bindings;
    if bindings.len() != graph.design().cells.len() {
        return Err(
            refuse_placement(
                twice_numbered(
                    "expected ",
                    graph.design().cells.len() as u64,
                    " cell bindings, received ",
                    bindings.len() as u64,
                    "",
                ),
            ),
        );
    }
    match check_bels(graph, bindings) {
        Err(error) => {
            return Err(error);
        },
        Ok(()) => {},
    }
    let mut index: usize = 0;
    while index < units.len()
        invariant
            index <= units@.len(),
            *bindings == placement.bindings,
            graph.wf(),
            are_units(*graph, constraints, units@),
            all_indexed(*graph, units@, spatial@),
            bindings@.len() == graph.design.cells@.len(),
            forall|c: int|
                0 <= c < bindings@.len() ==> (#[trigger] bindings@[c]).0 < graph.device.bels@.len(),
            forall|u: int|
                0 <= u < index ==> stands(#[trigger] units@[u], all_placed(bindings@)),
        decreases units@.len() - index,
    {
        assert(units@[index as int].wf(*graph, constraints));
        assert(spatial@[index as int].indexes(units@[index as int].choices, graph.device));
        if !unit_stands(graph, &units[index], &spatial[index], bindings, Ghost(constraints)) {
            assert(!stands(units@[index as int], all_placed(bindings@)));
            return Err(
                refuse_placement(
                    numbered(
                        "cell group beginning at ",
                        units[index].cells[0].0,
                        " has an incompatible assignment",
                    ),
                ),
            );
        }
        index = index + 1;
    }
    match validate_complete_placement_resources(graph, constraints, bindings) {
        Err(error) => {
            return Err(error);
        },
        Ok(()) => {},
    }
    Ok(load_state(graph, constraints, units, bindings))
}

} // verus!
