//! Grouped and fixed placement rules of a target packer.

use std::sync::Arc;

use vstd::prelude::*;

use crate::model::{BelId, BelPinId, CellId, CellPinId, PinChoice};
use crate::ordered::{copy_keys, same_keys, OrderedMap, OrderedSet};
use crate::routing_costs::share;

verus! {

/// Whether the two handles share one allocation.
///
/// Calls `std::sync::Arc::ptr_eq`. Claimed of it: handles of one allocation
/// hold one value. Nothing is claimed where it answers no, as equal values may
/// stand in two allocations.
#[verifier::external_body]
pub(crate) fn shares_allocation<T>(a: &Arc<T>, b: &Arc<T>) -> (result: bool)
    ensures
        result ==> *a == *b,
{
    Arc::ptr_eq(a, b)
}

/// One atomically placed group and its legal BEL assignments.
#[derive(Clone, Debug, PartialEq, Eq)]
pub struct PlacementGroup {
    /// Cells assigned together, in assignment-column order.
    pub cells: Vec<CellId>,
    /// Legal assignments; every row must have one BEL per cell.
    pub assignments: Arc<Vec<Vec<BelId>>>,
}

/// One target configuration value shared by multiple BELs in a physical site.
///
/// A placement is legal when every cell assigned to the same resource ID has
/// the same value. Resource IDs and values are opaque target-defined numbers.
#[derive(Clone, Debug, PartialEq, Eq)]
pub struct PlacementSharedResource {
    /// Value of each participating cell.
    pub cell_values: OrderedMap<CellId, u64>,
    /// Resource of each participating BEL.
    pub bel_resources: OrderedMap<BelId, u64>,
}

impl PlacementSharedResource {
    /// Both tables are ordered.
    pub open spec fn wf(&self) -> bool {
        self.cell_values.wf() && self.bel_resources.wf()
    }
}

/// Rows of an assignment table by their first BEL.
#[derive(Clone, Debug, PartialEq, Eq)]
pub struct RowIndex {
    /// Row numbers of each first BEL, in increasing order.
    pub rows: OrderedMap<BelId, Vec<usize>>,
}

/// The row begins with the BEL.
pub open spec fn begins_with(row: Seq<BelId>, bel: BelId) -> bool {
    row.len() > 0 && row[0] == bel
}

/// Numbers of the first rows that begin with the BEL.
pub open spec fn rows_of(table: Seq<Vec<BelId>>, bel: BelId) -> Seq<usize>
    decreases table.len(),
{
    if table.len() == 0 {
        Seq::empty()
    } else {
        let rest = rows_of(table.drop_last(), bel);
        if begins_with(table.last()@, bel) {
            rest.push((table.len() - 1) as usize)
        } else {
            rest
        }
    }
}

/// A row number is listed where its row begins with the BEL, and nowhere else.
pub proof fn lemma_rows_of(table: Seq<Vec<BelId>>, bel: BelId)
    requires
        table.len() <= usize::MAX,
    ensures
        forall|r: usize| #[trigger]
            rows_of(table, bel).contains(r) <==> r < table.len() && begins_with(
                table[r as int]@,
                bel,
            ),
    decreases table.len(),
{
    if table.len() > 0 {
        let shorter = table.drop_last();
        let last = (table.len() - 1) as usize;
        let rest = rows_of(shorter, bel);
        lemma_rows_of(shorter, bel);
        assert forall|r: usize| #[trigger] rows_of(table, bel).contains(r) <==> r < table.len()
            && begins_with(table[r as int]@, bel) by {
            assert(rest.contains(r) <==> r < shorter.len() && begins_with(shorter[r as int]@, bel));
            let whole = rows_of(table, bel);
            if begins_with(table.last()@, bel) {
                assert(whole == rest.push(last));
                assert(whole[rest.len() as int] == last);
                if rest.contains(r) {
                    let k = rest.index_of(r);
                    assert(whole[k] == r);
                }
                if whole.contains(r) && r != last {
                    let k = whole.index_of(r);
                    assert(rest[k] == r);
                }
            }
        }
    }
}

impl RowIndex {
    /// The index lists exactly the rows of the table.
    pub open spec fn describes(&self, table: Seq<Vec<BelId>>) -> bool {
        &&& self.rows.wf()
        &&& forall|b: BelId| #[trigger]
            self.rows@.contains_key(b) <==> rows_of(table, b).len() > 0
        &&& forall|b: BelId| #[trigger]
            self.rows@.contains_key(b) ==> self.rows@[b]@ == rows_of(table, b)
    }
}

/// Lists the rows of an assignment table by their first BEL.
pub(crate) fn index_assignment_rows(assignments: &Vec<Vec<BelId>>) -> (result: RowIndex)
    ensures
        result.describes(assignments@),
{
    let mut index = RowIndex { rows: OrderedMap::new() };
    let mut row: usize = 0;
    while row < assignments.len()
        invariant
            row <= assignments@.len(),
            index.describes(assignments@.take(row as int)),
        decreases assignments@.len() - row,
    {
        let ghost shorter = assignments@.take(row as int);
        let ghost longer = assignments@.take(row + 1);
        let ghost before = index;
        proof {
            assert(longer.drop_last() =~= shorter);
            assert(longer.last() == assignments@[row as int]);
        }
        if assignments[row].len() > 0 {
            let first = assignments[row][0];
            let mut list = match index.rows.remove(first) {
                Some(list) => list,
                None => Vec::new(),
            };
            assert(list@ =~= rows_of(shorter, first));
            list.push(row);
            index.rows.insert(first, list);
            proof {
                assert forall|b: BelId| #[trigger]
                    index.rows@.contains_key(b) <==> rows_of(longer, b).len() > 0 by {
                    assert(before.rows@.contains_key(b) <==> rows_of(shorter, b).len() > 0);
                }
                assert forall|b: BelId| #[trigger]
                    index.rows@.contains_key(b) implies index.rows@[b]@ == rows_of(longer, b) by {
                    if b != first {
                        assert(before.rows@.contains_key(b));
                    }
                }
            }
        } else {
            proof {
                assert forall|b: BelId| #[trigger]
                    index.rows@.contains_key(b) <==> rows_of(longer, b).len() > 0 by {
                    assert(before.rows@.contains_key(b) <==> rows_of(shorter, b).len() > 0);
                }
                assert forall|b: BelId| #[trigger]
                    index.rows@.contains_key(b) implies index.rows@[b]@ == rows_of(longer, b) by {
                    assert(before.rows@.contains_key(b));
                }
            }
        }
        row = row + 1;
    }
    assert(assignments@.take(row as int) =~= assignments@);
    index
}

/// Optional grouped/fixed placement rules supplied by a target packer.
#[derive(Clone, Debug, PartialEq, Eq)]
pub struct PlacementConstraints {
    /// Atomic groups in insertion order.
    pub groups: Vec<PlacementGroup>,
    /// Rows of each group's table by their first BEL.
    pub group_row_indexes: Vec<Arc<RowIndex>>,
    /// Physical pin of a logical pin on one BEL.
    pub pin_bindings: OrderedMap<PinChoice, BelPinId>,
    /// Physical pin name of a logical pin on every BEL.
    pub pin_name_bindings: OrderedMap<CellPinId, String>,
    /// Shared-site configuration rules.
    pub shared_resources: Vec<PlacementSharedResource>,
}

/// The group is the first with these cells.
pub open spec fn is_first_named(
    groups: Seq<PlacementGroup>,
    cells: Seq<CellId>,
    index: int,
) -> bool {
    &&& 0 <= index < groups.len()
    &&& groups[index].cells@ == cells
    &&& forall|j: int| 0 <= j < index ==> (#[trigger] groups[j]).cells@ != cells
}

/// The group is the first that holds the cell.
pub open spec fn is_first_holder(groups: Seq<PlacementGroup>, cell: CellId, index: int) -> bool {
    &&& 0 <= index < groups.len()
    &&& groups[index].cells@.contains(cell)
    &&& forall|j: int| 0 <= j < index ==> !(#[trigger] groups[j]).cells@.contains(cell)
}

/// The cell stands first in the column.
pub open spec fn is_first_column(cells: Seq<CellId>, cell: CellId, column: int) -> bool {
    &&& 0 <= column < cells.len()
    &&& cells[column] == cell
    &&& forall|k: int| 0 <= k < column ==> #[trigger] cells[k] != cell
}

/// Some group holds the cell.
pub open spec fn is_grouped(groups: Seq<PlacementGroup>, cell: CellId) -> bool {
    exists|i: int| 0 <= i < groups.len() && (#[trigger] groups[i]).cells@.contains(cell)
}

/// The later table is the earlier one without one column.
pub open spec fn drops_column(
    earlier: Seq<Vec<BelId>>,
    later: Seq<Vec<BelId>>,
    column: int,
) -> bool {
    &&& later.len() == earlier.len()
    &&& forall|r: int|
        0 <= r < earlier.len() ==> (#[trigger] later[r])@ == earlier[r]@.remove(column)
}

/// The group that replaces another is sound.
pub open spec fn replacement_fits(
    groups: Seq<PlacementGroup>,
    index: int,
    cells: Seq<CellId>,
    assignments: Seq<Vec<BelId>>,
) -> bool {
    &&& cells.len() > 0
    &&& assignments.len() > 0
    &&& forall|r: int|
        0 <= r < assignments.len() ==> (#[trigger] assignments[r])@.len() == cells.len()
    &&& cells.no_duplicates()
    &&& forall|g: int, k: int|
        #![trigger groups[g].cells@[k]]
        0 <= g < groups.len() && g != index && 0 <= k < groups[g].cells@.len() ==> !cells.contains(
            groups[g].cells@[k],
        )
}

impl PlacementConstraints {
    /// Each table is indexed, and the other tables are ordered.
    pub open spec fn wf(&self) -> bool {
        &&& self.group_row_indexes@.len() == self.groups@.len()
        &&& forall|g: int|
            0 <= g < self.groups@.len() ==> (#[trigger] self.group_row_indexes@[g]).describes(
                self.groups@[g].assignments@,
            )
        &&& self.pin_bindings.wf()
        &&& self.pin_name_bindings.wf()
        &&& forall|r: int|
            0 <= r < self.shared_resources@.len() ==> (#[trigger] self.shared_resources@[r]).wf()
    }

    /// Only the groups differ.
    pub open spec fn same_rules(&self, other: &PlacementConstraints) -> bool {
        &&& self.pin_bindings == other.pin_bindings
        &&& self.pin_name_bindings == other.pin_name_bindings
        &&& self.shared_resources == other.shared_resources
    }

    /// Creates an unconstrained placement problem.
    pub fn new() -> (result: Self)
        ensures
            result.wf(),
            result.groups@.len() == 0,
            result.pin_bindings@ == Map::<PinChoice, BelPinId>::empty(),
            result.pin_name_bindings@ == Map::<CellPinId, String>::empty(),
            result.shared_resources@.len() == 0,
    {
        PlacementConstraints {
            groups: Vec::new(),
            group_row_indexes: Vec::new(),
            pin_bindings: OrderedMap::new(),
            pin_name_bindings: OrderedMap::new(),
            shared_resources: Vec::new(),
        }
    }

    /// Adds one atomic group. Structural and compatibility checks run before
    /// placement because they require the complete design and device.
    pub fn add_group(&mut self, cells: Vec<CellId>, assignments: Vec<Vec<BelId>>)
        requires
            old(self).wf(),
        ensures
            final(self).wf(),
            final(self).same_rules(old(self)),
            final(self).groups@.len() == old(self).groups@.len() + 1,
            final(self).groups@.drop_last() == old(self).groups@,
            final(self).groups@.last().cells == cells,
            *final(self).groups@.last().assignments == assignments,
    {
        let index = index_assignment_rows(&assignments);
        let ghost before = *self;
        self.group_row_indexes.push(Arc::new(index));
        self.groups.push(PlacementGroup { cells, assignments: Arc::new(assignments) });
        assert(self.groups@.drop_last() =~= before.groups@);
    }

    /// Adds an atomic group backed by a shared legal-assignment table.
    ///
    /// Targets use this when many logical groups implement the same physical
    /// relationship, such as every LUT/FF pair. Cloning the [`Arc`] does not
    /// duplicate the device-wide table, and neither does its row index.
    pub fn add_group_with_shared_assignments(
        &mut self,
        cells: Vec<CellId>,
        assignments: Arc<Vec<Vec<BelId>>>,
    )
        requires
            old(self).wf(),
        ensures
            final(self).wf(),
            final(self).same_rules(old(self)),
            final(self).groups@.len() == old(self).groups@.len() + 1,
            final(self).groups@.drop_last() == old(self).groups@,
            final(self).groups@.last().cells == cells,
            final(self).groups@.last().assignments == assignments,
    {
        let ghost before = *self;
        let row_index = self.shared_row_index(&assignments);
        self.group_row_indexes.push(row_index);
        self.groups.push(PlacementGroup { cells, assignments });
        assert(self.groups@.drop_last() =~= before.groups@);
    }

    /// Index of a table, shared with an earlier group of the same allocation.
    fn shared_row_index(&self, assignments: &Arc<Vec<Vec<BelId>>>) -> (result: Arc<RowIndex>)
        requires
            self.wf(),
        ensures
            result.describes(assignments@),
    {
        let mut group: usize = 0;
        while group < self.groups.len()
            invariant
                group <= self.groups@.len(),
                self.wf(),
            decreases self.groups@.len() - group,
        {
            if shares_allocation(&self.groups[group].assignments, assignments) {
                assert(self.group_row_indexes@[group as int].describes(
                    self.groups@[group as int].assignments@,
                ));
                return share(&self.group_row_indexes[group]);
            }
            group = group + 1;
        }
        Arc::new(index_assignment_rows(assignments))
    }

    /// Index of the first group with these cells.
    fn find_named(&self, cells: &Vec<CellId>) -> (result: Option<usize>)
        ensures
            match result {
                Some(index) => is_first_named(self.groups@, cells@, index as int),
                None => forall|g: int|
                    0 <= g < self.groups@.len() ==> (#[trigger] self.groups@[g]).cells@ != cells@,
            },
    {
        let mut group: usize = 0;
        while group < self.groups.len()
            invariant
                group <= self.groups@.len(),
                forall|g: int|
                    0 <= g < group ==> (#[trigger] self.groups@[g]).cells@ != cells@,
            decreases self.groups@.len() - group,
        {
            if same_keys(&self.groups[group].cells, cells) {
                return Some(group);
            }
            group = group + 1;
        }
        None
    }

    /// Position of a cell in a list.
    fn column_of(cells: &Vec<CellId>, cell: CellId) -> (result: Option<usize>)
        ensures
            match result {
                Some(column) => is_first_column(cells@, cell, column as int),
                None => !cells@.contains(cell),
            },
    {
        let mut column: usize = 0;
        while column < cells.len()
            invariant
                column <= cells@.len(),
                forall|k: int| 0 <= k < column ==> #[trigger] cells@[k] != cell,
            decreases cells@.len() - column,
        {
            if cells[column] == cell {
                return Some(column);
            }
            column = column + 1;
        }
        None
    }

    /// First group that holds a cell, and the cell's column in it.
    fn find_holder(&self, cell: CellId) -> (result: Option<(usize, usize)>)
        ensures
            match result {
                Some(found) => {
                    &&& is_first_holder(self.groups@, cell, found.0 as int)
                    &&& is_first_column(
                        self.groups@[found.0 as int].cells@,
                        cell,
                        found.1 as int,
                    )
                },
                None => !is_grouped(self.groups@, cell),
            },
    {
        let mut group: usize = 0;
        while group < self.groups.len()
            invariant
                group <= self.groups@.len(),
                forall|g: int|
                    0 <= g < group ==> !(#[trigger] self.groups@[g]).cells@.contains(cell),
            decreases self.groups@.len() - group,
        {
            if let Some(column) = Self::column_of(&self.groups[group].cells, cell) {
                assert(self.groups@[group as int].cells@[column as int] == cell);
                assert(self.groups@[group as int].cells@.contains(cell));
                return Some((group, column));
            }
            group = group + 1;
        }
        None
    }

    /// Takes one group out.
    fn drop_group(&mut self, index: usize)
        requires
            old(self).wf(),
            index < old(self).groups@.len(),
        ensures
            final(self).wf(),
            final(self).same_rules(old(self)),
            final(self).groups@ == old(self).groups@.remove(index as int),
    {
        let ghost before = *self;
        self.groups.remove(index);
        self.group_row_indexes.remove(index);
        proof {
            assert forall|g: int| 0 <= g < self.groups@.len() implies (
            #[trigger] self.group_row_indexes@[g]).describes(self.groups@[g].assignments@) by {
                let from = if g < index {
                    g
                } else {
                    g + 1
                };
                assert(before.group_row_indexes@[from].describes(
                    before.groups@[from].assignments@,
                ));
            }
        }
    }

    /// Puts another group in the place of one.
    fn put_group(&mut self, index: usize, cells: Vec<CellId>, assignments: Vec<Vec<BelId>>)
        requires
            old(self).wf(),
            index < old(self).groups@.len(),
        ensures
            final(self).wf(),
            final(self).same_rules(old(self)),
            final(self).groups@.len() == old(self).groups@.len(),
            forall|g: int|
                0 <= g < old(self).groups@.len() && g != index ==> #[trigger] final(self).groups@[g]
                    == old(self).groups@[g],
            final(self).groups@[index as int].cells == cells,
            *final(self).groups@[index as int].assignments == assignments,
    {
        let ghost before = *self;
        let row_index = index_assignment_rows(&assignments);
        self.group_row_indexes.set(index, Arc::new(row_index));
        self.groups.set(index, PlacementGroup { cells, assignments: Arc::new(assignments) });
        proof {
            assert forall|g: int| 0 <= g < self.groups@.len() implies (
            #[trigger] self.group_row_indexes@[g]).describes(self.groups@[g].assignments@) by {
                if g != index {
                    assert(before.group_row_indexes@[g].describes(before.groups@[g].assignments@));
                }
            }
        }
    }

    /// Removes the atomic group whose ordered cell columns exactly match
    /// `cells`.
    ///
    /// Target-specific post-route packing ECOs use this to release one
    /// dedicated edge without rebuilding or weakening unrelated constraints.
    pub fn remove_group(&mut self, cells: &Vec<CellId>) -> (result: bool)
        requires
            old(self).wf(),
        ensures
            final(self).wf(),
            final(self).same_rules(old(self)),
            match result {
                true => exists|g: int|
                    #[trigger] is_first_named(old(self).groups@, cells@, g) && final(self).groups@
                        == old(self).groups@.remove(g),
                false => *final(self) == *old(self) && forall|g: int|
                    0 <= g < old(self).groups@.len() ==> (#[trigger] old(self).groups@[g]).cells@
                        != cells@,
            },
    {
        match self.find_named(cells) {
            None => false,
            Some(index) => {
                self.drop_group(index);
                true
            },
        }
    }

    /// Whether the cells are distinct and in no other group.
    fn cells_are_free(&self, index: usize, cells: &Vec<CellId>) -> (result: bool)
        ensures
            result == (cells@.no_duplicates() && forall|g: int, k: int|
                #![trigger self.groups@[g].cells@[k]]
                0 <= g < self.groups@.len() && g != index && 0 <= k < self.groups@[g].cells@.len()
                    ==> !cells@.contains(self.groups@[g].cells@[k])),
    {
        let mut unique: OrderedSet<CellId> = OrderedSet::new();
        let mut at: usize = 0;
        while at < cells.len()
            invariant
                at <= cells@.len(),
                unique.wf(),
                unique@ == cells@.take(at as int).to_set(),
                cells@.take(at as int).no_duplicates(),
            decreases cells@.len() - at,
        {
            let cell = cells[at];
            proof {
                crate::ordered::lemma_take_step(cells@, at as int);
                assert(cells@.take(at + 1) =~= cells@.take(at as int).push(cell));
            }
            if !unique.insert(cell) {
                proof {
                    assert(cells@.take(at as int).contains(cell));
                    let k = cells@.take(at as int).index_of(cell);
                    assert(cells@[k] == cells@[at as int]);
                }
                return false;
            }
            proof {
                assert(!cells@.take(at as int).contains(cell));
            }
            at = at + 1;
        }
        proof {
            assert(cells@.take(at as int) =~= cells@);
        }
        let mut group: usize = 0;
        while group < self.groups.len()
            invariant
                group <= self.groups@.len(),
                unique.wf(),
                unique@ == cells@.to_set(),
                cells@.no_duplicates(),
                forall|g: int, k: int|
                    #![trigger self.groups@[g].cells@[k]]
                    0 <= g < group && g != index && 0 <= k < self.groups@[g].cells@.len()
                        ==> !cells@.contains(self.groups@[g].cells@[k]),
            decreases self.groups@.len() - group,
        {
            if group != index {
                let list = &self.groups[group].cells;
                let mut at: usize = 0;
                while at < list.len()
                    invariant
                        at <= list@.len(),
                        group < self.groups@.len(),
                        group != index,
                        list@ == self.groups@[group as int].cells@,
                        unique.wf(),
                        unique@ == cells@.to_set(),
                        forall|k: int| 0 <= k < at ==> !cells@.contains(#[trigger] list@[k]),
                    decreases list@.len() - at,
                {
                    if unique.contains(list[at]) {
                        assert(cells@.to_set().contains(self.groups@[group as int].cells@[at as int]));
                        return false;
                    }
                    assert(!cells@.to_set().contains(list@[at as int]));
                    at = at + 1;
                }
            }
            group = group + 1;
        }
        true
    }

    /// Replaces one atomic group transactionally.
    ///
    /// The old ordered cell list identifies the group. Every replacement row
    /// must have one BEL per replacement cell, replacement cells must be
    /// unique, and no replacement cell may belong to another group. This is
    /// used when a target extends a rigid macro with optional dedicated-path
    /// members after the macro's base shape has been constructed.
    pub fn replace_group(
        &mut self,
        old_cells: &Vec<CellId>,
        cells: Vec<CellId>,
        assignments: Vec<Vec<BelId>>,
    ) -> (result: bool)
        requires
            old(self).wf(),
        ensures
            final(self).wf(),
            final(self).same_rules(old(self)),
            match result {
                true => exists|g: int|
                    {
                        &&& #[trigger] is_first_named(old(self).groups@, old_cells@, g)
                        &&& replacement_fits(old(self).groups@, g, cells@, assignments@)
                        &&& final(self).groups@.len() == old(self).groups@.len()
                        &&& final(self).groups@[g].cells == cells
                        &&& *final(self).groups@[g].assignments == assignments
                        &&& forall|other: int|
                            0 <= other < old(self).groups@.len() && other != g ==> #[trigger] final(self).groups@[other] == old(self).groups@[other]
                    },
                false => *final(self) == *old(self) && forall|g: int| #[trigger]
                    is_first_named(old(self).groups@, old_cells@, g) ==> !replacement_fits(
                        old(self).groups@,
                        g,
                        cells@,
                        assignments@,
                    ),
            },
    {
        let index: usize = match self.find_named(old_cells) {
            None => {
                return false;
            },
            Some(index) => index,
        };
        assert forall|g: int| #[trigger] is_first_named(self.groups@, old_cells@, g) implies g
            == index by {
            if g < index {
                assert(self.groups@[g].cells@ != old_cells@);
            } else if g > index {
                assert(self.groups@[index as int].cells@ != old_cells@);
            }
        }
        if cells.len() == 0 || assignments.len() == 0 {
            return false;
        }
        let mut row: usize = 0;
        while row < assignments.len()
            invariant
                row <= assignments@.len(),
                *self == *old(self),
                self.wf(),
                forall|g: int| #[trigger]
                    is_first_named(self.groups@, old_cells@, g) ==> g == index,
                forall|r: int|
                    0 <= r < row ==> (#[trigger] assignments@[r])@.len() == cells@.len(),
            decreases assignments@.len() - row,
        {
            if assignments[row].len() != cells.len() {
                assert(assignments@[row as int]@.len() != cells@.len());
                return false;
            }
            row = row + 1;
        }
        if !self.cells_are_free(index, &cells) {
            return false;
        }
        self.put_group(index, cells, assignments);
        true
    }

    /// Copies a table without one column.
    fn without_column(
        assignments: &Vec<Vec<BelId>>,
        column: usize,
    ) -> (result: Option<Vec<Vec<BelId>>>)
        ensures
            match result {
                Some(table) => drops_column(assignments@, table@, column as int) && forall|r: int|
                    0 <= r < assignments@.len() ==> column < (#[trigger] assignments@[r])@.len(),
                None => exists|r: int|
                    0 <= r < assignments@.len() && column >= (#[trigger] assignments@[r])@.len(),
            },
    {
        let mut result: Vec<Vec<BelId>> = Vec::new();
        let mut row: usize = 0;
        while row < assignments.len()
            invariant
                row <= assignments@.len(),
                result@.len() == row,
                forall|r: int|
                    0 <= r < row ==> (#[trigger] result@[r])@ == assignments@[r]@.remove(
                        column as int,
                    ),
                forall|r: int| 0 <= r < row ==> column < (#[trigger] assignments@[r])@.len(),
            decreases assignments@.len() - row,
        {
            if column >= assignments[row].len() {
                assert(column >= assignments@[row as int]@.len());
                return None;
            }
            let mut copy = copy_keys(&assignments[row]);
            copy.remove(column);
            result.push(copy);
            row = row + 1;
        }
        Some(result)
    }

    /// Removes one cell column from an atomic group while preserving every
    /// other member and assignment row.
    ///
    /// A two-cell group is removed completely rather than leaving a redundant
    /// singleton group. Returns false when the cell is not grouped.
    pub fn remove_group_cell(&mut self, cell: CellId) -> (result: bool)
        requires
            old(self).wf(),
            forall|g: int, k: int, r: int|
                #![trigger is_first_holder(old(self).groups@, cell, g), is_first_column(
                    old(self).groups@[g].cells@,
                    cell,
                    k,
                ), old(self).groups@[g].assignments@[r]]
                is_first_holder(old(self).groups@, cell, g) && is_first_column(
                    old(self).groups@[g].cells@,
                    cell,
                    k,
                ) && old(self).groups@[g].cells@.len() > 2 && 0 <= r < old(self).groups@[g].assignments@.len()
                    ==> k < old(self).groups@[g].assignments@[r]@.len(),
        ensures
            final(self).wf(),
            final(self).same_rules(old(self)),
            result == is_grouped(old(self).groups@, cell),
            !result ==> *final(self) == *old(self),
            result ==> exists|g: int, k: int|
                {
                    let group = old(self).groups@[g];
                    &&& #[trigger] is_first_holder(old(self).groups@, cell, g)
                    &&& #[trigger] is_first_column(old(self).groups@[g].cells@, cell, k)
                    &&& if group.cells@.len() <= 2 {
                        final(self).groups@ == old(self).groups@.remove(g)
                    } else {
                        &&& final(self).groups@.len() == old(self).groups@.len()
                        &&& final(self).groups@[g].cells@ == group.cells@.remove(k)
                        &&& drops_column(
                            group.assignments@,
                            final(self).groups@[g].assignments@,
                            k,
                        )
                        &&& forall|other: int|
                            0 <= other < old(self).groups@.len() && other != g ==> #[trigger] final(self).groups@[other] == old(self).groups@[other]
                    }
                },
    {
        let (index, column) = match self.find_holder(cell) {
            None => {
                return false;
            },
            Some(found) => found,
        };
        assert(self.groups@[index as int].cells@[column as int] == cell);
        assert(is_grouped(self.groups@, cell)) by {
            assert(self.groups@[index as int].cells@.contains(cell));
        }
        if self.groups[index].cells.len() <= 2 {
            self.drop_group(index);
            return true;
        }
        let mut cells = copy_keys(&self.groups[index].cells);
        cells.remove(column);
        let assignments = match Self::without_column(&self.groups[index].assignments, column) {
            Some(table) => table,
            None => {
                proof {
                    let table = self.groups@[index as int].assignments@;
                    let r = choose|r: int|
                        0 <= r < table.len() && column >= (#[trigger] table[r])@.len();
                    assert(column < self.groups@[index as int].assignments@[r]@.len());
                }
                return false;
            },
        };
        self.put_group(index, cells, assignments);
        true
    }

    /// Target-supplied atomic groups in insertion order.
    pub fn groups(&self) -> (result: &Vec<PlacementGroup>)
        ensures
            *result == self.groups,
    {
        &self.groups
    }

    /// Replaces one grouped cell while preserving the group's assignment
    /// column. Returns false when the old cell is not grouped or the new cell
    /// already belongs to any group.
    pub fn replace_group_cell(&mut self, old_cell: CellId, new_cell: CellId) -> (result: bool)
        requires
            old(self).wf(),
        ensures
            final(self).wf(),
            final(self).same_rules(old(self)),
            result == (is_grouped(old(self).groups@, old_cell) && !is_grouped(
                old(self).groups@,
                new_cell,
            )),
            !result ==> *final(self) == *old(self),
            result ==> exists|g: int, k: int|
                {
                    let group = old(self).groups@[g];
                    &&& #[trigger] is_first_holder(old(self).groups@, old_cell, g)
                    &&& #[trigger] is_first_column(old(self).groups@[g].cells@, old_cell, k)
                    &&& final(self).groups@.len() == old(self).groups@.len()
                    &&& final(self).groups@[g].cells@ == group.cells@.update(k, new_cell)
                    &&& final(self).groups@[g].assignments == group.assignments
                    &&& forall|other: int|
                        0 <= other < old(self).groups@.len() && other != g ==> #[trigger] final(self).groups@[other] == old(self).groups@[other]
                },
    {
        if self.find_holder(new_cell).is_some() {
            proof {
                let g = choose|g: int| is_first_holder(self.groups@, new_cell, g);
                assert(self.groups@[g].cells@.contains(new_cell));
            }
            return false;
        }
        let (index, column) = match self.find_holder(old_cell) {
            None => {
                return false;
            },
            Some(found) => found,
        };
        let ghost before = *self;
        assert(self.groups@[index as int].cells@[column as int] == old_cell);
        assert(is_grouped(self.groups@, old_cell)) by {
            assert(self.groups@[index as int].cells@.contains(old_cell));
        }
        let mut cells = copy_keys(&self.groups[index].cells);
        cells.set(column, new_cell);
        let assignments = share(&self.groups[index].assignments);
        self.groups.set(index, PlacementGroup { cells, assignments });
        proof {
            assert forall|g: int| 0 <= g < self.groups@.len() implies (
            #[trigger] self.group_row_indexes@[g]).describes(self.groups@[g].assignments@) by {
                assert(before.group_row_indexes@[g].describes(before.groups@[g].assignments@));
            }
            assert(self.groups@[index as int].cells@ =~= before.groups@[index as int].cells@.update(
                column as int,
                new_cell,
            ));
        }
        true
    }

    /// Overrides one logical pin's physical pin for a particular BEL choice.
    ///
    /// This models target packing transformations such as an FF data input
    /// using `DI` when paired with a LUT and `M` when independently routed.
    /// Validation occurs before placement.
    pub fn bind_pin(&mut self, pin: CellPinId, bel: BelId, bel_pin: BelPinId)
        requires
            old(self).wf(),
        ensures
            final(self).wf(),
            final(self).pin_bindings@ == old(self).pin_bindings@.insert(
                PinChoice { pin, bel },
                bel_pin,
            ),
            *final(self) == (PlacementConstraints {
                pin_bindings: final(self).pin_bindings,
                ..*old(self)
            }),
    {
        self.pin_bindings.insert(PinChoice { pin, bel }, bel_pin);
    }

    /// Candidate-specific pin binding overrides.
    pub fn pin_bindings(&self) -> (result: &OrderedMap<PinChoice, BelPinId>)
        ensures
            *result == self.pin_bindings,
    {
        &self.pin_bindings
    }

    /// Overrides one logical pin by physical pin name for every BEL choice.
    ///
    /// The concrete BEL pin is resolved after placement. This avoids expanding
    /// a target rule that applies uniformly to every compatible BEL into one
    /// binding per candidate.
    pub fn bind_pin_name(&mut self, pin: CellPinId, physical_name: String)
        requires
            old(self).wf(),
        ensures
            final(self).wf(),
            final(self).pin_name_bindings@ == old(self).pin_name_bindings@.insert(
                pin,
                physical_name,
            ),
            *final(self) == (PlacementConstraints {
                pin_name_bindings: final(self).pin_name_bindings,
                ..*old(self)
            }),
    {
        self.pin_name_bindings.insert(pin, physical_name);
    }

    /// Restores target-default physical pin selection for one logical pin.
    pub fn unbind_pin_name(&mut self, pin: CellPinId)
        requires
            old(self).wf(),
        ensures
            final(self).wf(),
            final(self).pin_name_bindings@ == old(self).pin_name_bindings@.remove(pin),
            *final(self) == (PlacementConstraints {
                pin_name_bindings: final(self).pin_name_bindings,
                ..*old(self)
            }),
    {
        self.pin_name_bindings.remove(pin);
    }

    /// BEL-independent physical pin-name overrides.
    pub fn pin_name_bindings(&self) -> (result: &OrderedMap<CellPinId, String>)
        ensures
            *result == self.pin_name_bindings,
    {
        &self.pin_name_bindings
    }

    /// Adds one target-defined shared-site configuration rule.
    ///
    /// Cells with no value and BELs with no resource ID do not participate.
    /// Values only need to be stable and comparable within this rule.
    pub fn add_shared_resource(
        &mut self,
        cell_values: &[(CellId, u64)],
        bel_resources: &[(BelId, u64)],
    )
        requires
            old(self).wf(),
        ensures
            final(self).wf(),
            *final(self) == (PlacementConstraints {
                shared_resources: final(self).shared_resources,
                ..*old(self)
            }),
            final(self).shared_resources@.len() == old(self).shared_resources@.len() + 1,
            final(self).shared_resources@.drop_last() == old(self).shared_resources@,
            final(self).shared_resources@.last().cell_values@ == collected(cell_values@),
            final(self).shared_resources@.last().bel_resources@ == collected(bel_resources@),
    {
        let ghost before = self.shared_resources@;
        let rule = PlacementSharedResource {
            cell_values: collect_entries(cell_values),
            bel_resources: collect_entries(bel_resources),
        };
        self.shared_resources.push(rule);
        assert(self.shared_resources@.drop_last() =~= before);
    }

    /// Target-defined shared-site configuration rules.
    pub fn shared_resources(&self) -> (result: &Vec<PlacementSharedResource>)
        ensures
            *result == self.shared_resources,
    {
        &self.shared_resources
    }
}

/// The map of some entries; a later entry of a key replaces an earlier one.
pub open spec fn collected<K>(entries: Seq<(K, u64)>) -> Map<K, u64>
    decreases entries.len(),
{
    if entries.len() == 0 {
        Map::empty()
    } else {
        collected(entries.drop_last()).insert(entries.last().0, entries.last().1)
    }
}

/// Collects entries; a later entry of a key replaces an earlier one.
fn collect_entries<K: crate::ordered::OrderedKey>(entries: &[(K, u64)]) -> (result: OrderedMap<
    K,
    u64,
>)
    ensures
        result.wf(),
        result@ == collected(entries@),
{
    let mut result: OrderedMap<K, u64> = OrderedMap::new();
    let mut index: usize = 0;
    proof {
        assert(result@ =~= Map::<K, u64>::empty());
    }
    while index < entries.len()
        invariant
            index <= entries@.len(),
            result.wf(),
            result@ == collected(entries@.take(index as int)),
        decreases entries@.len() - index,
    {
        let entry = entries[index];
        proof {
            assert(entries@.take(index + 1).drop_last() =~= entries@.take(index as int));
            assert(entries@.take(index + 1).last() == entries@[index as int]);
        }
        result.insert(entry.0, entry.1);
        index = index + 1;
    }
    assert(entries@.take(index as int) =~= entries@);
    result
}

} // verus!
