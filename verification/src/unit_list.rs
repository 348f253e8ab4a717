//! The units of a placement problem: its groups, then every other cell alone.

use std::sync::Arc;

use vstd::prelude::*;
use vstd::string::*;

use crate::candidates::{
    are_candidates, binding_defect, cached_placement_candidates, pin_bindings_valid,
    validate_pin_bindings, CandidateCache,
};
use crate::device::UnifiedGraph;
use crate::error::PnrError;
use crate::model::{BelId, CellId};
use crate::ordered::{copy_keys, OrderedSet};
use crate::placement_constraints::{PlacementConstraints, PlacementGroup};
use crate::routing_costs::share;
use crate::text::numbered;
use crate::units::{
    check_row, constraints_valid, group_fits, groups_disjoint, groups_valid, lemma_listed_fits,
    first_groups_valid, names_group, names_rule, row_fits, row_listed, shape_is_validated, shapes_hold, shared_rules_valid,
    table_listed, validate_shared_resources, PlacementChoices, PlacementUnit,
    ValidatedGroupShape,
};

verus! {

/// No cell stands in two places of the units.
pub open spec fn units_disjoint(units: Seq<PlacementUnit>) -> bool {
    forall|u: int, k: int, v: int, l: int|
        #![trigger units[u].cells@[k], units[v].cells@[l]]
        0 <= u < units.len() && 0 <= k < units[u].cells@.len() && 0 <= v < units.len() && 0 <= l
            < units[v].cells@.len() && units[u].cells@[k] == units[v].cells@[l] ==> u == v && k
            == l
}

/// The cell belongs to a unit.
pub open spec fn is_covered(units: Seq<PlacementUnit>, cell: CellId) -> bool {
    exists|u: int| 0 <= u < units.len() && (#[trigger] units[u]).cells@.contains(cell)
}

/// The units of the problem: one of each group, in order, and one of each other cell.
pub open spec fn are_units(
    graph: UnifiedGraph<'_>,
    constraints: &PlacementConstraints,
    units: Seq<PlacementUnit>,
) -> bool {
    &&& forall|u: int| 0 <= u < units.len() ==> (#[trigger] units[u]).wf(graph, constraints)
    &&& units_disjoint(units)
    &&& forall|c: CellId|
        c.0 < graph.design.cells@.len() ==> #[trigger] is_covered(units, c)
    &&& constraints.groups@.len() <= units.len()
    &&& forall|g: int|
        0 <= g < constraints.groups@.len() ==> {
            &&& (#[trigger] units[g]).cells@ == constraints.groups@[g].cells@
            &&& units[g].choices == PlacementChoices::Shared(constraints.groups@[g].assignments)
        }
    &&& forall|u: int|
        constraints.groups@.len() <= u < units.len() ==> (#[trigger] units[u]).choices
            is SingleCell
    &&& forall|u: int, v: int|
        constraints.groups@.len() <= u < v < units.len() ==> (#[trigger] units[u]).cells@[0].0 < (
        #[trigger] units[v]).cells@[0].0
}

/// The cells of the first groups.
spec fn cells_of(groups: Seq<PlacementGroup>, count: int) -> Set<CellId> {
    Set::new(
        |c: CellId|
            exists|g: int| 0 <= g < count && (#[trigger] groups[g]).cells@.contains(c),
    )
}

/// Reports a defect of one group.
fn refuse_group(group: usize, reason: String) -> (result: PnrError)
    ensures
        result == (PnrError::InvalidPlacementConstraint { group, reason }),
{
    PnrError::InvalidPlacementConstraint { group, reason }
}

/// The error names the group.
spec fn names_at(error: PnrError, index: usize) -> bool {
    error matches PnrError::InvalidPlacementConstraint { group, .. } && group == index
}

/// A fault among the first groups is one among all.
proof fn lemma_first_groups(
    graph: UnifiedGraph<'_>,
    constraints: &PlacementConstraints,
    count: int,
)
    requires
        0 <= count <= constraints.groups@.len(),
        groups_valid(graph, constraints),
    ensures
        first_groups_valid(graph, constraints, count),
{
    let groups = constraints.groups@;
    let first = groups.take(count);
    assert forall|g: int, k: int, h: int, l: int|
        #![trigger first[g].cells@[k], first[h].cells@[l]]
        0 <= g < first.len() && 0 <= k < first[g].cells@.len() && 0 <= h < first.len() && 0 <= l
            < first[h].cells@.len() && first[g].cells@[k] == first[h].cells@[l] implies g == h && k
        == l by {
        assert(groups[g].cells@[k] == groups[h].cells@[l]);
    }
}

/// Enters the cells of a group, which must be known and in no group yet.
fn enter_cells(
    graph: &UnifiedGraph<'_>,
    constraints: &PlacementConstraints,
    index: usize,
    constrained: &mut OrderedSet<CellId>,
) -> (result: Result<(), PnrError>)
    requires
        index < constraints.groups@.len(),
        old(constrained).wf(),
        old(constrained)@ == cells_of(constraints.groups@, index as int),
        groups_disjoint(constraints.groups@.take(index as int)),
    ensures
        final(constrained).wf(),
        match result {
            Ok(()) => {
                &&& final(constrained)@ == cells_of(constraints.groups@, index + 1)
                &&& groups_disjoint(constraints.groups@.take(index + 1))
                &&& forall|k: int|
                    0 <= k < constraints.groups@[index as int].cells@.len() ==> (
                    #[trigger] constraints.groups@[index as int].cells@[k]).0
                        < graph.design.cells@.len()
            },
            Err(error) => names_at(error, index) && !first_groups_valid(
                *graph,
                constraints,
                index + 1,
            ),
        },
{
    let groups = &constraints.groups;
    let cells = &groups[index].cells;
    let ghost before = constrained@;
    let mut at: usize = 0;
    while at < cells.len()
        invariant
            at <= cells@.len(),
            index < constraints.groups@.len(),
            groups@ == constraints.groups@,
            cells@ == groups@[index as int].cells@,
            before == cells_of(constraints.groups@, index as int),
            constrained.wf(),
            forall|c: CellId| #[trigger]
                constrained@.contains(c) <==> before.contains(c) || cells@.take(
                    at as int,
                ).contains(c),
            forall|k: int| 0 <= k < at ==> (#[trigger] cells@[k]).0 < graph.design.cells@.len(),
            forall|k: int| 0 <= k < at ==> !before.contains(#[trigger] cells@[k]),
            cells@.take(at as int).no_duplicates(),
        decreases cells@.len() - at,
    {
        let cell = cells[at];
        let ghost earlier = constrained@;
        if cell.0 >= graph.design().cells.len() {
            proof {
                if first_groups_valid(*graph, constraints, index + 1) {
                    assert(group_fits(*graph, constraints, constraints.groups@[index as int]));
                    assert(constraints.groups@[index as int].cells@[at as int].0
                        < graph.design.cells@.len());
                }
            }
            return Err(refuse_group(index, numbered("unknown cell ID ", cell.0, "")));
        }
        if !constrained.insert(cell) {
            proof {
                if first_groups_valid(*graph, constraints, index + 1) {
                    let first = constraints.groups@.take(index + 1);
                    if before.contains(cell) {
                        let g = choose|g: int|
                            0 <= g < index && (#[trigger] groups@[g]).cells@.contains(cell);
                        let k = groups@[g].cells@.index_of(cell);
                        assert(first[g].cells@[k] == first[index as int].cells@[at as int]);
                    } else {
                        let k = cells@.take(at as int).index_of(cell);
                        assert(first[index as int].cells@[k]
                            == first[index as int].cells@[at as int]);
                    }
                }
            }
            return Err(
                refuse_group(
                    index,
                    numbered("cell ID ", cell.0, " occurs in more than one group"),
                ),
            );
        }
        proof {
            let shorter = cells@.take(at as int);
            let longer = cells@.take(at + 1);
            assert(longer =~= shorter.push(cell));
            assert(!shorter.contains(cell));
            assert forall|c: CellId| #[trigger] constrained@.contains(c) <==> before.contains(c)
                || longer.contains(c) by {
                assert(earlier.contains(c) <==> before.contains(c) || shorter.contains(c));
                assert(longer[at as int] == cell);
                if shorter.contains(c) {
                    let k = shorter.index_of(c);
                    assert(longer[k] == c);
                }
                if longer.contains(c) && c != cell {
                    let k = longer.index_of(c);
                    assert(shorter[k] == c);
                }
            }
        }
        at = at + 1;
    }
    proof {
        assert(cells@.take(at as int) =~= cells@);
        assert forall|c: CellId| constrained@.contains(c) <==> cells_of(
            constraints.groups@,
            index + 1,
        ).contains(c) by {
            if constrained@.contains(c) {
                if before.contains(c) {
                    let g = choose|g: int|
                        0 <= g < index && (#[trigger] groups@[g]).cells@.contains(c);
                    assert(groups@[g].cells@.contains(c));
                } else {
                    assert(groups@[index as int].cells@.contains(c));
                }
            }
            if cells_of(constraints.groups@, index + 1).contains(c) {
                let g = choose|g: int|
                    0 <= g < index + 1 && (#[trigger] groups@[g]).cells@.contains(c);
                if g < index {
                    assert(before.contains(c));
                }
            }
        }
        assert(constrained@ =~= cells_of(constraints.groups@, index + 1));
        let shorter = constraints.groups@.take(index as int);
        let longer = constraints.groups@.take(index + 1);
        assert forall|g: int, k: int, h: int, l: int|
            #![trigger longer[g].cells@[k], longer[h].cells@[l]]
            0 <= g < longer.len() && 0 <= k < longer[g].cells@.len() && 0 <= h < longer.len() && 0
                <= l < longer[h].cells@.len() && longer[g].cells@[k] == longer[h].cells@[l] implies g
            == h && k == l by {
            if g < index && h < index {
                assert(shorter[g].cells@[k] == shorter[h].cells@[l]);
            } else if g < index {
                assert(groups@[g].cells@.contains(groups@[g].cells@[k]));
                assert(before.contains(longer[g].cells@[k]));
                assert(!before.contains(cells@[l]));
            } else if h < index {
                assert(groups@[h].cells@.contains(groups@[h].cells@[l]));
                assert(before.contains(longer[h].cells@[l]));
                assert(!before.contains(cells@[k]));
            }
        }
    }
    Ok(())
}

/// Candidates of each cell of a group.
fn column_candidates(
    graph: &UnifiedGraph<'_>,
    constraints: &PlacementConstraints,
    cells: &Vec<CellId>,
    cache: &mut CandidateCache,
) -> (result: Vec<Arc<Vec<BelId>>>)
    requires
        graph.wf(),
        constraints.wf(),
        pin_bindings_valid(*graph, constraints),
        old(cache).holds(*graph),
        forall|k: int|
            0 <= k < cells@.len() ==> (#[trigger] cells@[k]).0 < graph.design.cells@.len(),
    ensures
        final(cache).holds(*graph),
        result@.len() == cells@.len(),
        forall|k: int|
            0 <= k < result@.len() ==> are_candidates(
                *graph,
                constraints,
                cells@[k],
                (#[trigger] result@[k])@,
            ),
{
    let mut result: Vec<Arc<Vec<BelId>>> = Vec::new();
    let mut at: usize = 0;
    while at < cells.len()
        invariant
            at <= cells@.len(),
            graph.wf(),
            constraints.wf(),
            pin_bindings_valid(*graph, constraints),
            cache.holds(*graph),
            forall|k: int|
                0 <= k < cells@.len() ==> (#[trigger] cells@[k]).0 < graph.design.cells@.len(),
            result@.len() == at,
            forall|k: int|
                0 <= k < result@.len() ==> are_candidates(
                    *graph,
                    constraints,
                    cells@[k],
                    (#[trigger] result@[k])@,
                ),
        decreases cells@.len() - at,
    {
        assert(cells@[at as int].0 < graph.design.cells@.len());
        if let Ok(list) = cached_placement_candidates(graph, constraints, cells[at], cache) {
            result.push(list);
        }
        at = at + 1;
    }
    result
}

/// Checks one group and returns its unit.
fn group_unit(
    graph: &UnifiedGraph<'_>,
    constraints: &PlacementConstraints,
    index: usize,
    cache: &mut CandidateCache,
    shapes: &mut Vec<ValidatedGroupShape>,
) -> (result: Result<PlacementUnit, PnrError>)
    requires
        graph.wf(),
        constraints.wf(),
        pin_bindings_valid(*graph, constraints),
        index < constraints.groups@.len(),
        constraints.groups@[index as int].cells@.len() > 0,
        constraints.groups@[index as int].assignments@.len() > 0,
        groups_disjoint(constraints.groups@.take(index + 1)),
        forall|k: int|
            0 <= k < constraints.groups@[index as int].cells@.len() ==> (
            #[trigger] constraints.groups@[index as int].cells@[k]).0 < graph.design.cells@.len(),
        old(cache).holds(*graph),
        shapes_hold(old(shapes)@),
    ensures
        final(cache).holds(*graph),
        shapes_hold(final(shapes)@),
        match result {
            Ok(unit) => {
                &&& group_fits(*graph, constraints, constraints.groups@[index as int])
                &&& unit.wf(*graph, constraints)
                &&& unit.cells@ == constraints.groups@[index as int].cells@
                &&& unit.choices == PlacementChoices::Shared(
                    constraints.groups@[index as int].assignments,
                )
            },
            Err(error) => names_at(error, index) && !group_fits(
                *graph,
                constraints,
                constraints.groups@[index as int],
            ),
        },
{
    let group = &constraints.groups[index];
    let sets = column_candidates(graph, constraints, &group.cells, cache);
    proof {
        lemma_listed_fits(*graph, constraints, *group, sets@);
    }
    if !shape_is_validated(shapes, &group.assignments, &sets) {
        let mut row: usize = 0;
        while row < group.assignments.len()
            invariant
                row <= group.assignments@.len(),
                index < constraints.groups@.len(),
                *group == constraints.groups@[index as int],
                sets@.len() == group.cells@.len(),
                forall|k: int|
                    0 <= k < sets@.len() ==> are_candidates(
                        *graph,
                        constraints,
                        group.cells@[k],
                        (#[trigger] sets@[k])@,
                    ),
                group_fits(*graph, constraints, *group) == table_listed(
                    group.assignments@,
                    sets@,
                ),
                cache.holds(*graph),
                shapes_hold(shapes@),
                forall|r: int|
                    0 <= r < row ==> row_listed((#[trigger] group.assignments@[r])@, sets@),
            decreases group.assignments@.len() - row,
        {
            match check_row(index, &group.cells, &group.assignments[row], &sets) {
                Err(error) => {
                    assert(!row_listed(group.assignments@[row as int]@, sets@));
                    return Err(error);
                },
                Ok(()) => {},
            }
            row = row + 1;
        }
        assert(table_listed(group.assignments@, sets@));
        shapes.push(ValidatedGroupShape { assignments: share(&group.assignments), candidate_sets: sets });
    }
    let unit = PlacementUnit {
        cells: copy_keys(&group.cells),
        choices: PlacementChoices::Shared(share(&group.assignments)),
    };
    proof {
        let cells = group.cells@;
        assert forall|a: int, b: int| 0 <= a < b < cells.len() implies cells[a] != cells[b] by {
            let groups = constraints.groups@.take(index + 1);
            assert(groups[index as int].cells@[a] == cells[a]);
            assert(groups[index as int].cells@[b] == cells[b]);
        }
        assert forall|i: int| 0 <= i < unit.choices.count() implies row_fits(
            *graph,
            constraints,
            unit.cells@,
            #[trigger] unit.choices.row(i),
        ) by {
            assert(unit.choices.row(i) == group.assignments@[i]@);
        }
    }
    Ok(unit)
}

/// Units of a placement problem.
pub(crate) fn placement_units_cached(
    graph: &UnifiedGraph<'_>,
    constraints: &PlacementConstraints,
    cache: &mut CandidateCache,
    shapes: &mut Vec<ValidatedGroupShape>,
) -> (result: Result<Vec<PlacementUnit>, PnrError>)
    requires
        graph.wf(),
        constraints.wf(),
        constraints.groups@.len() + constraints.shared_resources@.len() <= usize::MAX,
        old(cache).holds(*graph),
        shapes_hold(old(shapes)@),
    ensures
        final(cache).holds(*graph),
        shapes_hold(final(shapes)@),
        match result {
            Ok(units) => constraints_valid(*graph, constraints) && are_units(
                *graph,
                constraints,
                units@,
            ),
            Err(error) => units_refused(*graph, constraints, error),
        },
{
    match validate_pin_bindings(graph, constraints) {
        Err(error) => {
            return Err(error);
        },
        Ok(()) => {},
    }
    match validate_shared_resources(graph, constraints) {
        Err(error) => {
            return Err(error);
        },
        Ok(()) => {},
    }
    let mut constrained: OrderedSet<CellId> = OrderedSet::new();
    let mut units: Vec<PlacementUnit> = Vec::new();
    let groups = &constraints.groups;
    let mut index: usize = 0;
    proof {
        assert(constrained@ =~= cells_of(groups@, 0));
    }
    while index < groups.len()
        invariant
            index <= groups@.len(),
            *groups == constraints.groups,
            graph.wf(),
            constraints.wf(),
            pin_bindings_valid(*graph, constraints),
            shared_rules_valid(*graph, constraints),
            cache.holds(*graph),
            shapes_hold(shapes@),
            constrained.wf(),
            constrained@ == cells_of(groups@, index as int),
            groups_disjoint(groups@.take(index as int)),
            forall|g: int|
                0 <= g < index ==> group_fits(*graph, constraints, #[trigger] groups@[g]),
            units@.len() == index,
            forall|g: int|
                0 <= g < index ==> {
                    &&& (#[trigger] units@[g]).wf(*graph, constraints)
                    &&& units@[g].cells@ == groups@[g].cells@
                    &&& units@[g].choices == PlacementChoices::Shared(groups@[g].assignments)
                },
        decreases groups@.len() - index,
    {
        let group = &groups[index];
        if group.cells.len() == 0 || group.assignments.len() == 0 {
            proof {
                assert(!group_fits(*graph, constraints, constraints.groups@[index as int]));
                if groups_valid(*graph, constraints) {
                    lemma_first_groups(*graph, constraints, index + 1);
                }
            }
            return Err(
                refuse_group(
                    index,
                    String::from_str("group and assignment set must be non-empty"),
                ),
            );
        }
        match enter_cells(graph, constraints, index, &mut constrained) {
            Err(error) => {
                proof {
                    if groups_valid(*graph, constraints) {
                        lemma_first_groups(*graph, constraints, index + 1);
                    }
                }
                return Err(error);
            },
            Ok(()) => {},
        }
        match group_unit(graph, constraints, index, cache, shapes) {
            Err(error) => {
                assert(!group_fits(*graph, constraints, constraints.groups@[index as int]));
                return Err(error);
            },
            Ok(unit) => {
                units.push(unit);
            },
        }
        index = index + 1;
    }
    proof {
        assert(groups@.take(index as int) =~= groups@);
        assert forall|u: int, k: int, v: int, l: int|
            #![trigger units@[u].cells@[k], units@[v].cells@[l]]
            0 <= u < units@.len() && 0 <= k < units@[u].cells@.len() && 0 <= v < units@.len() && 0
                <= l < units@[v].cells@.len() && units@[u].cells@[k]
                == units@[v].cells@[l] implies u == v && k == l by {
            assert(groups@[u].cells@[k] == groups@[v].cells@[l]);
        }
        assert forall|c: CellId| #[trigger] constrained@.contains(c) <==> is_covered(units@, c) by {
            if constrained@.contains(c) {
                let g = choose|g: int|
                    0 <= g < groups@.len() && (#[trigger] groups@[g]).cells@.contains(c);
                assert(units@[g].cells@.contains(c));
            }
            if is_covered(units@, c) {
                let u = choose|u: int|
                    0 <= u < units@.len() && (#[trigger] units@[u]).cells@.contains(c);
                assert(groups@[u].cells@.contains(c));
            }
        }
    }
    add_single_cells(graph, constraints, cache, &constrained, &mut units);
    Ok(units)
}

/// Why a placement problem has no units.
pub open spec fn units_refused(
    graph: UnifiedGraph<'_>,
    constraints: &PlacementConstraints,
    error: PnrError,
) -> bool {
    &&& !constraints_valid(graph, constraints)
    &&& if pin_bindings_valid(graph, constraints) {
        if shared_rules_valid(graph, constraints) {
            names_group(graph, constraints, error)
        } else {
            names_rule(graph, constraints, error)
        }
    } else {
        binding_defect(graph, constraints, error)
    }
}

/// Adds a unit of every cell outside the groups.
fn add_single_cells(
    graph: &UnifiedGraph<'_>,
    constraints: &PlacementConstraints,
    cache: &mut CandidateCache,
    constrained: &OrderedSet<CellId>,
    units: &mut Vec<PlacementUnit>,
)
    requires
        graph.wf(),
        constraints.wf(),
        pin_bindings_valid(*graph, constraints),
        old(cache).holds(*graph),
        constrained.wf(),
        old(units)@.len() == constraints.groups@.len(),
        units_disjoint(old(units)@),
        forall|c: CellId| #[trigger]
            constrained@.contains(c) <==> is_covered(old(units)@, c),
        forall|g: int|
            0 <= g < old(units)@.len() ==> {
                &&& (#[trigger] old(units)@[g]).wf(*graph, constraints)
                &&& old(units)@[g].cells@ == constraints.groups@[g].cells@
                &&& old(units)@[g].choices == PlacementChoices::Shared(
                    constraints.groups@[g].assignments,
                )
            },
    ensures
        final(cache).holds(*graph),
        are_units(*graph, constraints, final(units)@),
{
    let ghost grouped = units@;
    let count: usize = graph.design().cells.len();
    let mut index: usize = 0;
    while index < count
        invariant
            index <= count,
            count == graph.design.cells@.len(),
            graph.wf(),
            constraints.wf(),
            pin_bindings_valid(*graph, constraints),
            cache.holds(*graph),
            constrained.wf(),
            grouped.len() == constraints.groups@.len(),
            grouped.len() <= units@.len(),
            forall|c: CellId| #[trigger]
                constrained@.contains(c) <==> is_covered(grouped, c),
            forall|g: int| 0 <= g < grouped.len() ==> #[trigger] units@[g] == grouped[g],
            forall|g: int|
                0 <= g < grouped.len() ==> {
                    &&& (#[trigger] grouped[g]).wf(*graph, constraints)
                    &&& grouped[g].cells@ == constraints.groups@[g].cells@
                    &&& grouped[g].choices == PlacementChoices::Shared(
                        constraints.groups@[g].assignments,
                    )
                },
            units_disjoint(units@),
            forall|u: int| 0 <= u < units@.len() ==> (#[trigger] units@[u]).wf(*graph, constraints),
            forall|u: int|
                grouped.len() <= u < units@.len() ==> {
                    &&& (#[trigger] units@[u]).choices is SingleCell
                    &&& units@[u].cells@[0].0 < index
                    &&& !constrained@.contains(units@[u].cells@[0])
                },
            forall|u: int, v: int|
                grouped.len() <= u < v < units@.len() ==> (#[trigger] units@[u]).cells@[0].0 < (
                #[trigger] units@[v]).cells@[0].0,
            forall|c: CellId|
                c.0 < index ==> #[trigger] is_covered(units@, c),
        decreases count - index,
    {
        let cell = CellId(index);
        let ghost before = units@;
        if !constrained.contains(cell) {
            if let Ok(list) = cached_placement_candidates(graph, constraints, cell, cache) {
                let mut cells: Vec<CellId> = Vec::new();
                cells.push(cell);
                let unit = PlacementUnit { cells, choices: PlacementChoices::SingleCell(list) };
                proof {
                    lemma_single_unit(*graph, constraints, unit, cell, list);
                }
                units.push(unit);
                proof {
                    lemma_unit_added(before, unit, cell, constrained@, grouped, index as int);
                    assert(units@ =~= before.push(unit));
                }
            }
        } else {
            proof {
                assert(is_covered(grouped, cell));
                let u = choose|u: int|
                    0 <= u < grouped.len() && (#[trigger] grouped[u]).cells@.contains(cell);
                assert(units@[u].cells@.contains(cell));
            }
        }
        proof {
            assert forall|c: CellId| c.0 < index + 1 implies #[trigger] is_covered(units@, c) by {
                if c.0 < index {
                    assert(is_covered(before, c));
                    let u = choose|u: int|
                        0 <= u < before.len() && (#[trigger] before[u]).cells@.contains(c);
                    assert(units@[u].cells@.contains(c));
                } else {
                    assert(c == cell);
                }
            }
        }
        index = index + 1;
    }
    proof {
        assert forall|g: int| 0 <= g < constraints.groups@.len() implies {
            &&& (#[trigger] units@[g]).cells@ == constraints.groups@[g].cells@
            &&& units@[g].choices == PlacementChoices::Shared(constraints.groups@[g].assignments)
        } by {
            assert(units@[g] == grouped[g]);
        }
    }
}

/// A cell and its candidates form a unit.
proof fn lemma_single_unit(
    graph: UnifiedGraph<'_>,
    constraints: &PlacementConstraints,
    unit: PlacementUnit,
    cell: CellId,
    list: Arc<Vec<BelId>>,
)
    requires
        unit.cells@ == seq![cell],
        unit.choices == PlacementChoices::SingleCell(list),
        cell.0 < graph.design.cells@.len(),
        are_candidates(graph, constraints, cell, list@),
    ensures
        unit.wf(graph, constraints),
{
    assert forall|i: int| 0 <= i < unit.choices.count() implies row_fits(
        graph,
        constraints,
        unit.cells@,
        #[trigger] unit.choices.row(i),
    ) by {
        assert(unit.choices.row(i) == seq![list@[i]]);
        assert(list@.contains(list@[i]));
    }
}

/// A unit of an uncovered cell keeps the units disjoint and covers the cell.
proof fn lemma_unit_added(
    before: Seq<PlacementUnit>,
    unit: PlacementUnit,
    cell: CellId,
    constrained: Set<CellId>,
    grouped: Seq<PlacementUnit>,
    index: int,
)
    requires
        units_disjoint(before),
        unit.cells@ == seq![cell],
        cell.0 == index,
        !constrained.contains(cell),
        forall|c: CellId| #[trigger] constrained.contains(c) <==> is_covered(grouped, c),
        grouped.len() <= before.len(),
        forall|g: int| 0 <= g < grouped.len() ==> #[trigger] before[g] == grouped[g],
        forall|u: int|
            grouped.len() <= u < before.len() ==> {
                &&& (#[trigger] before[u]).cells@.len() == 1
                &&& before[u].cells@[0].0 < index
            },
    ensures
        units_disjoint(before.push(unit)),
        is_covered(before.push(unit), cell),
{
    let after = before.push(unit);
    assert forall|u: int, k: int| 0 <= u < before.len() && 0 <= k < before[u].cells@.len() implies
    #[trigger] before[u].cells@[k] != cell by {
        if before[u].cells@[k] == cell {
            if u < grouped.len() {
                assert(before[u] == grouped[u]);
                assert(grouped[u].cells@.contains(grouped[u].cells@[k]));
                assert(is_covered(grouped, cell));
            } else {
                assert(before[u].cells@[0].0 < index);
            }
        }
    }
    assert forall|u: int, k: int, v: int, l: int|
        #![trigger after[u].cells@[k], after[v].cells@[l]]
        0 <= u < after.len() && 0 <= k < after[u].cells@.len() && 0 <= v < after.len() && 0 <= l
            < after[v].cells@.len() && after[u].cells@[k] == after[v].cells@[l] implies u == v && k
        == l by {
        if u < before.len() && v < before.len() {
            assert(before[u].cells@[k] == before[v].cells@[l]);
        } else if u < before.len() {
            assert(before[u].cells@[k] != cell);
        } else if v < before.len() {
            assert(before[v].cells@[l] != cell);
        }
    }
    assert(after[before.len() as int].cells@.contains(after[before.len() as int].cells@[0]));
}

/// Units of a placement problem.
pub(crate) fn placement_units(
    graph: &UnifiedGraph<'_>,
    constraints: &PlacementConstraints,
    cache: &mut CandidateCache,
) -> (result: Result<Vec<PlacementUnit>, PnrError>)
    requires
        graph.wf(),
        constraints.wf(),
        constraints.groups@.len() + constraints.shared_resources@.len() <= usize::MAX,
        old(cache).holds(*graph),
    ensures
        final(cache).holds(*graph),
        match result {
            Ok(units) => constraints_valid(*graph, constraints) && are_units(
                *graph,
                constraints,
                units@,
            ),
            Err(error) => units_refused(*graph, constraints, error),
        },
{
    let mut shapes: Vec<ValidatedGroupShape> = Vec::new();
    placement_units_cached(graph, constraints, cache, &mut shapes)
}

} // verus!
