//! Units that are placed atomically, and their legal assignments.

use std::sync::Arc;

use vstd::prelude::*;
use vstd::string::*;

use crate::candidates::{are_candidates, can_hold, pin_bindings_valid};
use crate::device::UnifiedGraph;
use crate::error::PnrError;
use crate::model::{BelId, CellId};
use crate::ordered::{copy_keys, increasing, lower_bound, same_keys, OrderedSet};
use crate::placement_constraints::{
    shares_allocation, PlacementConstraints, PlacementGroup, PlacementSharedResource,
};
use crate::text::{numbered, twice_numbered};

verus! {

/// Legal assignments of one unit.
#[derive(Clone, Debug)]
pub enum PlacementChoices {
    /// Rows of a table, one BEL per cell.
    Shared(Arc<Vec<Vec<BelId>>>),
    /// BELs of a single cell, in increasing order.
    SingleCell(Arc<Vec<BelId>>),
}

/// Cells placed together, and their legal assignments.
#[derive(Clone, Debug)]
pub struct PlacementUnit {
    /// Cells in assignment-column order.
    pub cells: Vec<CellId>,
    /// Legal assignments.
    pub choices: PlacementChoices,
}

/// Whether an increasing list holds the BEL.
pub(crate) fn lists_bel(list: &Vec<BelId>, bel: BelId) -> (result: bool)
    requires
        increasing(list@),
    ensures
        result == list@.contains(bel),
{
    let index: usize = lower_bound(list, bel);
    let found = index < list.len() && list[index].0 == bel.0;
    proof {
        if found {
            assert(list@[index as int] == bel);
        } else if list@.contains(bel) {
            let k = list@.index_of(bel);
            assert(list@[k] == bel);
        }
    }
    found
}

impl PlacementChoices {
    /// Number of assignments.
    pub open spec fn count(&self) -> nat {
        match self {
            PlacementChoices::Shared(table) => table@.len(),
            PlacementChoices::SingleCell(list) => list@.len(),
        }
    }

    /// One assignment.
    pub open spec fn row(&self, index: int) -> Seq<BelId> {
        match self {
            PlacementChoices::Shared(table) => table@[index]@,
            PlacementChoices::SingleCell(list) => seq![list@[index]],
        }
    }

    /// The assignment is one of the choices.
    pub open spec fn offers(&self, assignment: Seq<BelId>) -> bool {
        exists|i: int| 0 <= i < self.count() && #[trigger] self.row(i) == assignment
    }

    /// Number of assignments.
    pub fn len(&self) -> (result: usize)
        ensures
            result == self.count(),
    {
        match self {
            PlacementChoices::Shared(table) => table.len(),
            PlacementChoices::SingleCell(list) => list.len(),
        }
    }

    /// One assignment.
    pub fn assignment(&self, index: usize) -> (result: Vec<BelId>)
        requires
            index < self.count(),
        ensures
            result@ == self.row(index as int),
    {
        match self {
            PlacementChoices::Shared(table) => copy_keys(&table[index]),
            PlacementChoices::SingleCell(list) => {
                let mut result: Vec<BelId> = Vec::new();
                result.push(list[index]);
                assert(result@ =~= seq![list@[index as int]]);
                result
            },
        }
    }

    /// Whether the assignment is one of the choices.
    pub fn contains(&self, assignment: &Vec<BelId>) -> (result: bool)
        requires
            *self matches PlacementChoices::SingleCell(list) ==> increasing(list@),
        ensures
            result == self.offers(assignment@),
    {
        match self {
            PlacementChoices::Shared(table) => {
                let mut index: usize = 0;
                while index < table.len()
                    invariant
                        index <= table@.len(),
                        *self == PlacementChoices::Shared(*table),
                        forall|i: int| 0 <= i < index ==> #[trigger] self.row(i) != assignment@,
                    decreases table@.len() - index,
                {
                    if same_keys(&table[index], assignment) {
                        assert(self.row(index as int) == assignment@);
                        return true;
                    }
                    index = index + 1;
                }
                false
            },
            PlacementChoices::SingleCell(list) => {
                if assignment.len() != 1 {
                    assert forall|i: int| 0 <= i < self.count() implies #[trigger] self.row(i)
                        != assignment@ by {
                        assert(self.row(i).len() == 1);
                    }
                    return false;
                }
                let found = lists_bel(list, assignment[0]);
                proof {
                    if found {
                        let k = list@.index_of(assignment@[0]);
                        assert(self.row(k) =~= assignment@);
                    } else {
                        assert forall|i: int| 0 <= i < self.count() implies #[trigger] self.row(i)
                            != assignment@ by {
                            assert(self.row(i)[0] == list@[i]);
                            assert(list@.contains(list@[i]));
                        }
                    }
                }
                found
            },
        }
    }
}

/// The assignment gives each cell of the unit a BEL of its own that can hold it.
pub open spec fn row_fits(
    graph: UnifiedGraph<'_>,
    constraints: &PlacementConstraints,
    cells: Seq<CellId>,
    row: Seq<BelId>,
) -> bool {
    &&& row.len() == cells.len()
    &&& row.no_duplicates()
    &&& forall|k: int|
        0 <= k < cells.len() ==> can_hold(graph, constraints, cells[k], #[trigger] row[k])
}

impl PlacementUnit {
    /// The unit places known cells, each to a BEL of its own that can hold it.
    pub open spec fn wf(&self, graph: UnifiedGraph<'_>, constraints: &PlacementConstraints) -> bool {
        &&& self.cells@.len() > 0
        &&& self.cells@.no_duplicates()
        &&& forall|k: int|
            0 <= k < self.cells@.len() ==> (#[trigger] self.cells@[k]).0
                < graph.design.cells@.len()
        &&& forall|i: int|
            0 <= i < self.choices.count() ==> row_fits(
                graph,
                constraints,
                self.cells@,
                #[trigger] self.choices.row(i),
            )
        &&& self.choices matches PlacementChoices::SingleCell(list) ==> increasing(list@)
            && self.cells@.len() == 1 && are_candidates(
            graph,
            constraints,
            self.cells@[0],
            list@,
        )
    }
}

/// What is wrong with a shared-site rule.
pub open spec fn shared_rule_valid(graph: UnifiedGraph<'_>, rule: PlacementSharedResource) -> bool {
    &&& rule.cell_values.ordered().len() > 0
    &&& rule.bel_resources.ordered().len() > 0
    &&& forall|c: CellId| #[trigger]
        rule.cell_values@.contains_key(c) ==> c.0 < graph.design.cells@.len()
    &&& forall|b: BelId| #[trigger]
        rule.bel_resources@.contains_key(b) ==> b.0 < graph.device.bels@.len()
}

/// Every shared-site rule is sound.
pub open spec fn shared_rules_valid(
    graph: UnifiedGraph<'_>,
    constraints: &PlacementConstraints,
) -> bool {
    forall|r: int|
        0 <= r < constraints.shared_resources@.len() ==> shared_rule_valid(
            graph,
            #[trigger] constraints.shared_resources@[r],
        )
}

/// First key of a table that is no cell of the design.
fn find_unknown_cell(rule: &PlacementSharedResource, count: usize) -> (result: Option<CellId>)
    requires
        rule.wf(),
    ensures
        match result {
            Some(cell) => rule.cell_values@.contains_key(cell) && cell.0 >= count,
            None => forall|c: CellId| #[trigger]
                rule.cell_values@.contains_key(c) ==> c.0 < count,
        },
{
    let mut index: usize = 0;
    while index < rule.cell_values.len()
        invariant
            index <= rule.cell_values.ordered().len(),
            rule.wf(),
            forall|i: int|
                0 <= i < index ==> (#[trigger] rule.cell_values.ordered()[i]).0 < count,
        decreases rule.cell_values.ordered().len() - index,
    {
        let cell = rule.cell_values.key_at(index);
        if cell.0 >= count {
            proof {
                rule.cell_values.entry(index as int);
            }
            return Some(cell);
        }
        index = index + 1;
    }
    proof {
        assert forall|c: CellId| #[trigger] rule.cell_values@.contains_key(c) implies c.0 < count by {
            let i = rule.cell_values.key_index(c);
            assert(rule.cell_values.ordered()[i] == c);
        }
    }
    None
}

/// First key of a table that is no BEL of the device.
fn find_unknown_bel(rule: &PlacementSharedResource, count: usize) -> (result: Option<BelId>)
    requires
        rule.wf(),
    ensures
        match result {
            Some(bel) => rule.bel_resources@.contains_key(bel) && bel.0 >= count,
            None => forall|b: BelId| #[trigger]
                rule.bel_resources@.contains_key(b) ==> b.0 < count,
        },
{
    let mut index: usize = 0;
    while index < rule.bel_resources.len()
        invariant
            index <= rule.bel_resources.ordered().len(),
            rule.wf(),
            forall|i: int|
                0 <= i < index ==> (#[trigger] rule.bel_resources.ordered()[i]).0 < count,
        decreases rule.bel_resources.ordered().len() - index,
    {
        let bel = rule.bel_resources.key_at(index);
        if bel.0 >= count {
            proof {
                rule.bel_resources.entry(index as int);
            }
            return Some(bel);
        }
        index = index + 1;
    }
    proof {
        assert forall|b: BelId| #[trigger] rule.bel_resources@.contains_key(b) implies b.0 < count by {
            let i = rule.bel_resources.key_index(b);
            assert(rule.bel_resources.ordered()[i] == b);
        }
    }
    None
}

/// The error names the first shared-site rule at fault, counted behind the groups.
pub open spec fn names_rule(
    graph: UnifiedGraph<'_>,
    constraints: &PlacementConstraints,
    error: PnrError,
) -> bool {
    error matches PnrError::InvalidPlacementConstraint { group, .. } && {
        let rule = group - constraints.groups@.len();
        &&& 0 <= rule < constraints.shared_resources@.len()
        &&& !shared_rule_valid(graph, constraints.shared_resources@[rule])
        &&& forall|r: int|
            0 <= r < rule ==> shared_rule_valid(
                graph,
                #[trigger] constraints.shared_resources@[r],
            )
    }
}

/// The first groups are sound and group no cell twice.
pub open spec fn first_groups_valid(
    graph: UnifiedGraph<'_>,
    constraints: &PlacementConstraints,
    count: int,
) -> bool {
    &&& groups_disjoint(constraints.groups@.take(count))
    &&& forall|g: int|
        0 <= g < count ==> group_fits(graph, constraints, #[trigger] constraints.groups@[g])
}

/// The error names the first group at fault: it is unsound, or groups a cell again.
pub open spec fn names_group(
    graph: UnifiedGraph<'_>,
    constraints: &PlacementConstraints,
    error: PnrError,
) -> bool {
    error matches PnrError::InvalidPlacementConstraint { group, .. } && {
        &&& group < constraints.groups@.len()
        &&& first_groups_valid(graph, constraints, group as int)
        &&& !first_groups_valid(graph, constraints, group + 1)
    }
}

/// Checks every shared-site rule.
pub(crate) fn validate_shared_resources(
    graph: &UnifiedGraph<'_>,
    constraints: &PlacementConstraints,
) -> (result: Result<(), PnrError>)
    requires
        constraints.wf(),
        constraints.groups@.len() + constraints.shared_resources@.len() <= usize::MAX,
    ensures
        match result {
            Ok(()) => shared_rules_valid(*graph, constraints),
            Err(error) => {
                &&& !shared_rules_valid(*graph, constraints)
                &&& names_rule(*graph, constraints, error)
            },
        },
{
    let mut index: usize = 0;
    while index < constraints.shared_resources.len()
        invariant
            index <= constraints.shared_resources@.len(),
            constraints.wf(),
            constraints.groups@.len() + constraints.shared_resources@.len() <= usize::MAX,
            forall|r: int|
                0 <= r < index ==> shared_rule_valid(
                    *graph,
                    #[trigger] constraints.shared_resources@[r],
                ),
        decreases constraints.shared_resources@.len() - index,
    {
        let rule = &constraints.shared_resources[index];
        assert(constraints.shared_resources@[index as int].wf());
        let group: usize = constraints.groups.len() + index;
        if rule.cell_values.is_empty() || rule.bel_resources.is_empty() {
            assert(!shared_rule_valid(*graph, constraints.shared_resources@[index as int]));
            return Err(
                PnrError::InvalidPlacementConstraint {
                    group,
                    reason: String::from_str("shared resource cell and BEL maps must be non-empty"),
                },
            );
        }
        if let Some(cell) = find_unknown_cell(rule, graph.design().cells.len()) {
            assert(!shared_rule_valid(*graph, constraints.shared_resources@[index as int]));
            return Err(
                PnrError::InvalidPlacementConstraint {
                    group,
                    reason: numbered("shared resource names unknown cell ID ", cell.0, ""),
                },
            );
        }
        if let Some(bel) = find_unknown_bel(rule, graph.device().bels.len()) {
            assert(!shared_rule_valid(*graph, constraints.shared_resources@[index as int]));
            return Err(
                PnrError::InvalidPlacementConstraint {
                    group,
                    reason: numbered("shared resource names unknown BEL ID ", bel.0, ""),
                },
            );
        }
        index = index + 1;
    }
    Ok(())
}

/// No cell stands in two places of the groups.
pub open spec fn groups_disjoint(groups: Seq<PlacementGroup>) -> bool {
    forall|g: int, k: int, h: int, l: int|
        #![trigger groups[g].cells@[k], groups[h].cells@[l]]
        0 <= g < groups.len() && 0 <= k < groups[g].cells@.len() && 0 <= h < groups.len() && 0 <= l
            < groups[h].cells@.len() && groups[g].cells@[k] == groups[h].cells@[l] ==> g == h && k
            == l
}

/// The group places known cells by rows that fit.
pub open spec fn group_fits(
    graph: UnifiedGraph<'_>,
    constraints: &PlacementConstraints,
    group: PlacementGroup,
) -> bool {
    &&& group.cells@.len() > 0
    &&& group.assignments@.len() > 0
    &&& forall|k: int|
        0 <= k < group.cells@.len() ==> (#[trigger] group.cells@[k]).0 < graph.design.cells@.len()
    &&& forall|r: int|
        0 <= r < group.assignments@.len() ==> row_fits(
            graph,
            constraints,
            group.cells@,
            (#[trigger] group.assignments@[r])@,
        )
}

/// Every group is sound and no cell is grouped twice.
pub open spec fn groups_valid(
    graph: UnifiedGraph<'_>,
    constraints: &PlacementConstraints,
) -> bool {
    &&& groups_disjoint(constraints.groups@)
    &&& forall|g: int|
        0 <= g < constraints.groups@.len() ==> group_fits(
            graph,
            constraints,
            #[trigger] constraints.groups@[g],
        )
}

/// All rules of the constraints are sound.
pub open spec fn constraints_valid(
    graph: UnifiedGraph<'_>,
    constraints: &PlacementConstraints,
) -> bool {
    &&& pin_bindings_valid(graph, constraints)
    &&& shared_rules_valid(graph, constraints)
    &&& groups_valid(graph, constraints)
}

/// A table whose rows were found to fit some candidate sets.
#[derive(Clone, Debug)]
pub struct ValidatedGroupShape {
    /// Table.
    pub assignments: Arc<Vec<Vec<BelId>>>,
    /// Candidates of each column.
    pub candidate_sets: Vec<Arc<Vec<BelId>>>,
}

/// The row has one BEL per column, each once and a candidate of its column.
pub open spec fn row_listed(row: Seq<BelId>, sets: Seq<Arc<Vec<BelId>>>) -> bool {
    &&& row.len() == sets.len()
    &&& row.no_duplicates()
    &&& forall|k: int| 0 <= k < sets.len() ==> (#[trigger] sets[k])@.contains(row[k])
}

/// Every row is listed.
pub open spec fn table_listed(table: Seq<Vec<BelId>>, sets: Seq<Arc<Vec<BelId>>>) -> bool {
    forall|r: int| 0 <= r < table.len() ==> row_listed((#[trigger] table[r])@, sets)
}

/// Every shape was found to fit.
pub open spec fn shapes_hold(shapes: Seq<ValidatedGroupShape>) -> bool {
    forall|i: int|
        0 <= i < shapes.len() ==> table_listed(
            (#[trigger] shapes[i]).assignments@,
            shapes[i].candidate_sets@,
        )
}

/// What is known of the identity of one noted shape's tables.
pub struct ShapeAnswer {
    /// Whether its table is the one that is looked for.
    pub table: bool,
    /// Number of its columns.
    pub columns: usize,
    /// Whether the candidates of each column are those that are looked for, once the
    /// table and the number of columns agree.
    pub sets: Vec<bool>,
}

impl ShapeAnswer {
    /// The table, the number of columns and every column agree.
    pub open spec fn is_whole(&self, width: int) -> bool {
        &&& self.table
        &&& self.columns == width
        &&& self.sets@.len() == width
        &&& forall|k: int| 0 <= k < width ==> #[trigger] self.sets@[k]
    }

    /// Whether the table, the number of columns and every column agree.
    pub fn agrees(&self, width: usize) -> (result: bool)
        ensures
            result == self.is_whole(width as int),
    {
        if !self.table || self.columns != width || self.sets.len() != width {
            return false;
        }
        let mut at: usize = 0;
        while at < width
            invariant
                at <= width,
                self.sets@.len() == width,
                forall|k: int| 0 <= k < at ==> #[trigger] self.sets@[k],
            decreases width - at,
        {
            if !self.sets[at] {
                assert(!self.sets@[at as int]);
                return false;
            }
            at = at + 1;
        }
        true
    }

    /// What was answered of a noted shape: a yes stands for one value, and the columns
    /// are asked for once the table and their number agree.
    pub open spec fn tells(
        &self,
        shape: ValidatedGroupShape,
        assignments: Arc<Vec<Vec<BelId>>>,
        sets: Seq<Arc<Vec<BelId>>>,
    ) -> bool {
        &&& self.columns == shape.candidate_sets@.len()
        &&& self.table ==> shape.assignments == assignments
        &&& self.sets@.len() == if self.table && self.columns == sets.len() {
            sets.len()
        } else {
            0
        }
        &&& forall|k: int|
            0 <= k < self.sets@.len() && #[trigger] self.sets@[k] ==> shape.candidate_sets@[k]
                == sets[k]
    }
}

/// Some shape agrees.
pub open spec fn any_whole(answers: Seq<ShapeAnswer>, width: int) -> bool {
    exists|i: int| 0 <= i < answers.len() && (#[trigger] answers[i]).is_whole(width)
}

/// Whether some shape agrees.
pub fn any_agrees(answers: &Vec<ShapeAnswer>, width: usize) -> (result: bool)
    ensures
        result == any_whole(answers@, width as int),
{
    let mut index: usize = 0;
    while index < answers.len()
        invariant
            index <= answers@.len(),
            forall|i: int| 0 <= i < index ==> !(#[trigger] answers@[i]).is_whole(width as int),
        decreases answers@.len() - index,
    {
        if answers[index].agrees(width) {
            assert(answers@[index as int].is_whole(width as int));
            return true;
        }
        index = index + 1;
    }
    false
}

/// One answer for each noted shape.
pub open spec fn are_answers(
    shapes: Seq<ValidatedGroupShape>,
    assignments: Arc<Vec<Vec<BelId>>>,
    sets: Seq<Arc<Vec<BelId>>>,
    answers: Seq<ShapeAnswer>,
) -> bool {
    &&& answers.len() == shapes.len()
    &&& forall|i: int|
        0 <= i < answers.len() ==> (#[trigger] answers[i]).tells(shapes[i], assignments, sets)
}

/// Asks whether a noted shape is of this table and these candidates.
fn ask_shape(
    shape: &ValidatedGroupShape,
    assignments: &Arc<Vec<Vec<BelId>>>,
    sets: &Vec<Arc<Vec<BelId>>>,
) -> (result: ShapeAnswer)
    ensures
        result.tells(*shape, *assignments, sets@),
{
    let table = shares_allocation(&shape.assignments, assignments);
    let columns: usize = shape.candidate_sets.len();
    let mut shared: Vec<bool> = Vec::new();
    if table && columns == sets.len() {
        let mut at: usize = 0;
        while at < sets.len()
            invariant
                at <= sets@.len(),
                shape.candidate_sets@.len() == sets@.len(),
                shared@.len() == at,
                forall|k: int|
                    0 <= k < at && #[trigger] shared@[k] ==> shape.candidate_sets@[k] == sets@[k],
            decreases sets@.len() - at,
        {
            shared.push(shares_allocation(&shape.candidate_sets[at], &sets[at]));
            at = at + 1;
        }
    }
    ShapeAnswer { table, columns, sets: shared }
}

/// Whether a table was found to fit the sets before.
///
/// A noted shape counts where its table and its candidates stand in the same
/// allocations. Values alone do not tell where that is so: two allocations may
/// hold one value, and then the table is looked through again.
pub(crate) fn shape_is_validated(
    shapes: &Vec<ValidatedGroupShape>,
    assignments: &Arc<Vec<Vec<BelId>>>,
    sets: &Vec<Arc<Vec<BelId>>>,
) -> (result: bool)
    requires
        shapes_hold(shapes@),
    ensures
        result ==> table_listed(assignments@, sets@),
        exists|answers: Seq<ShapeAnswer>| #[trigger]
            are_answers(shapes@, *assignments, sets@, answers) && result == any_whole(
                answers,
                sets@.len() as int,
            ),
{
    let mut answers: Vec<ShapeAnswer> = Vec::new();
    let mut index: usize = 0;
    while index < shapes.len()
        invariant
            index <= shapes@.len(),
            answers@.len() == index,
            forall|i: int|
                0 <= i < index ==> (#[trigger] answers@[i]).tells(
                    shapes@[i],
                    *assignments,
                    sets@,
                ),
        decreases shapes@.len() - index,
    {
        answers.push(ask_shape(&shapes[index], assignments, sets));
        index = index + 1;
    }
    let result = any_agrees(&answers, sets.len());
    proof {
        assert(are_answers(shapes@, *assignments, sets@, answers@));
        if result {
            let i = choose|i: int|
                0 <= i < answers@.len() && (#[trigger] answers@[i]).is_whole(sets@.len() as int);
            assert(answers@[i].tells(shapes@[i], *assignments, sets@));
            assert forall|k: int| 0 <= k < sets@.len() implies shapes@[i].candidate_sets@[k]
                == #[trigger] sets@[k] by {
                assert(answers@[i].sets@[k]);
            }
            assert(shapes@[i].candidate_sets@ =~= sets@);
            assert(table_listed(shapes@[i].assignments@, shapes@[i].candidate_sets@));
        }
    }
    result
}

/// Checks one row of a group.
pub(crate) fn check_row(
    group: usize,
    cells: &Vec<CellId>,
    row: &Vec<BelId>,
    sets: &Vec<Arc<Vec<BelId>>>,
) -> (result: Result<(), PnrError>)
    requires
        cells@.len() == sets@.len(),
        forall|k: int| 0 <= k < sets@.len() ==> increasing((#[trigger] sets@[k])@),
    ensures
        match result {
            Ok(()) => row_listed(row@, sets@),
            Err(error) => !row_listed(row@, sets@) && (error
                matches PnrError::InvalidPlacementConstraint { group: reported, .. } && reported
                == group),
        },
{
    if row.len() != cells.len() {
        return Err(
            PnrError::InvalidPlacementConstraint {
                group,
                reason: String::from_str("assignment width does not match group width"),
            },
        );
    }
    let mut unique: OrderedSet<BelId> = OrderedSet::new();
    let mut at: usize = 0;
    while at < row.len()
        invariant
            at <= row@.len(),
            row@.len() == sets@.len(),
            cells@.len() == sets@.len(),
            forall|k: int| 0 <= k < sets@.len() ==> increasing((#[trigger] sets@[k])@),
            unique.wf(),
            unique@ == row@.take(at as int).to_set(),
            row@.take(at as int).no_duplicates(),
            forall|k: int| 0 <= k < at ==> (#[trigger] sets@[k])@.contains(row@[k]),
        decreases row@.len() - at,
    {
        let bel = row[at];
        proof {
            crate::ordered::lemma_take_step(row@, at as int);
            assert(row@.take(at + 1) =~= row@.take(at as int).push(bel));
        }
        if !unique.insert(bel) {
            proof {
                assert(row@.take(at as int).contains(bel));
                let k = row@.take(at as int).index_of(bel);
                assert(row@[k] == row@[at as int]);
            }
            return Err(
                PnrError::InvalidPlacementConstraint {
                    group,
                    reason: numbered("BEL ID ", bel.0, " is assigned more than once"),
                },
            );
        }
        assert(!row@.take(at as int).contains(bel));
        if !lists_bel(&sets[at], bel) {
            assert(!sets@[at as int]@.contains(row@[at as int]));
            return Err(
                PnrError::InvalidPlacementConstraint {
                    group,
                    reason: twice_numbered(
                        "BEL ID ",
                        bel.0 as u64,
                        " is incompatible with cell ID ",
                        cells[at].0 as u64,
                        "",
                    ),
                },
            );
        }
        at = at + 1;
    }
    assert(row@.take(at as int) =~= row@);
    Ok(())
}

/// A table fits the cells where it fits their candidates.
pub proof fn lemma_listed_fits(
    graph: UnifiedGraph<'_>,
    constraints: &PlacementConstraints,
    group: PlacementGroup,
    sets: Seq<Arc<Vec<BelId>>>,
)
    requires
        group.cells@.len() > 0,
        group.assignments@.len() > 0,
        sets.len() == group.cells@.len(),
        forall|k: int|
            0 <= k < group.cells@.len() ==> (#[trigger] group.cells@[k]).0
                < graph.design.cells@.len(),
        forall|k: int|
            0 <= k < sets.len() ==> are_candidates(
                graph,
                constraints,
                group.cells@[k],
                (#[trigger] sets[k])@,
            ),
    ensures
        group_fits(graph, constraints, group) == table_listed(group.assignments@, sets),
{
    assert forall|r: int| 0 <= r < group.assignments@.len() implies row_fits(
        graph,
        constraints,
        group.cells@,
        (#[trigger] group.assignments@[r])@,
    ) == row_listed(group.assignments@[r]@, sets) by {
        let row = group.assignments@[r]@;
        if row_fits(graph, constraints, group.cells@, row) {
            assert forall|k: int| 0 <= k < sets.len() implies (#[trigger] sets[k])@.contains(
                row[k],
            ) by {
                assert(can_hold(graph, constraints, group.cells@[k], row[k]));
            }
        }
        if row_listed(row, sets) {
            assert forall|k: int| 0 <= k < group.cells@.len() implies can_hold(
                graph,
                constraints,
                group.cells@[k],
                #[trigger] row[k],
            ) by {
                assert(sets[k]@.contains(row[k]));
            }
        }
    }
    if group_fits(graph, constraints, group) {
        assert forall|r: int| 0 <= r < group.assignments@.len() implies row_listed(
            (#[trigger] group.assignments@[r])@,
            sets,
        ) by {
            assert(row_fits(graph, constraints, group.cells@, group.assignments@[r]@));
        }
    }
    if table_listed(group.assignments@, sets) {
        assert forall|r: int| 0 <= r < group.assignments@.len() implies row_fits(
            graph,
            constraints,
            group.cells@,
            (#[trigger] group.assignments@[r])@,
        ) by {
            assert(row_listed(group.assignments@[r]@, sets));
        }
    }
}

} // verus!
