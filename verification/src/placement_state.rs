//! A partial placement with its occupied BELs and used resources.

use vstd::prelude::*;

use crate::candidates::bindings_in_range;
use crate::device::UnifiedGraph;
use crate::finish::{legal_parts_are_legal, lemma_nothing_placed};
use crate::legality::{
    assignment_resources_are_legal, legal_row_keeps_placement_legal, row_is_legal,
};
use crate::model::{BelId, CellId};
use crate::placement_constraints::PlacementConstraints;
use crate::usage::{update_placement_resource_usage, PlacementResourceUsage};
use crate::usage_model::{
    cells_in_range, lemma_with_row, lemma_without_cells, resources_legal, with_row, without_cells,
};

verus! {

/// Some cell stands on the BEL.
pub open spec fn is_taken(placed: Seq<Option<BelId>>, bel: BelId) -> bool {
    exists|c: int| 0 <= c < placed.len() && #[trigger] placed[c] == Some(bel)
}

/// No two cells stand on one BEL.
pub open spec fn all_apart(placed: Seq<Option<BelId>>) -> bool {
    forall|c: int, d: int|
        0 <= c < d < placed.len() && (#[trigger] placed[c]) is Some ==> placed[c]
            != #[trigger] placed[d]
}

/// The flags mark exactly the BELs that cells stand on.
pub open spec fn marks_taken(occupied: Seq<bool>, placed: Seq<Option<BelId>>) -> bool {
    &&& forall|c: int|
        0 <= c < placed.len() ==> (#[trigger] placed[c] matches Some(bel) ==> bel.0
            < occupied.len())
    &&& forall|b: BelId|
        b.0 < occupied.len() ==> occupied[b.0 as int] == #[trigger] is_taken(placed, b)
}

/// Every BEL of the row is free.
pub open spec fn row_is_free(occupied: Seq<bool>, row: Seq<BelId>) -> bool {
    forall|k: int|
        0 <= k < row.len() ==> (#[trigger] row[k]).0 < occupied.len() && !occupied[row[k].0 as int]
}

/// A partial placement with its occupied BELs and used resources.
pub struct PlacementState {
    /// BEL of each cell, once it has one.
    pub placed: Vec<Option<BelId>>,
    /// Whether some cell stands on each BEL.
    pub occupied: Vec<bool>,
    /// What the placed cells take.
    pub usage: PlacementResourceUsage,
}

impl PlacementState {
    /// The placement is legal as far as it goes, and the records are right.
    pub open spec fn wf(&self, graph: UnifiedGraph<'_>, constraints: &PlacementConstraints) -> bool {
        &&& self.placed@.len() == graph.design.cells@.len()
        &&& self.occupied@.len() == graph.device.bels@.len()
        &&& marks_taken(self.occupied@, self.placed@)
        &&& all_apart(self.placed@)
        &&& self.usage.tracks(graph, constraints, self.placed@)
        &&& resources_legal(graph, constraints, self.placed@)
    }

    /// Nothing is placed.
    pub fn new(graph: &UnifiedGraph<'_>, Ghost(constraints): Ghost<&PlacementConstraints>) -> (result:
        Self)
        ensures
            result.wf(*graph, constraints),
            forall|c: int| 0 <= c < result.placed@.len() ==> #[trigger] result.placed@[c] is None,
    {
        let mut placed: Vec<Option<BelId>> = Vec::new();
        let mut index: usize = 0;
        while index < graph.design().cells.len()
            invariant
                index <= graph.design.cells@.len(),
                placed@.len() == index,
                forall|c: int| 0 <= c < index ==> #[trigger] placed@[c] is None,
            decreases graph.design.cells@.len() - index,
        {
            placed.push(None);
            index = index + 1;
        }
        let mut occupied: Vec<bool> = Vec::new();
        let mut bel: usize = 0;
        while bel < graph.device().bels.len()
            invariant
                bel <= graph.device.bels@.len(),
                occupied@.len() == bel,
                forall|b: int| 0 <= b < bel ==> !#[trigger] occupied@[b],
            decreases graph.device.bels@.len() - bel,
        {
            occupied.push(false);
            bel = bel + 1;
        }
        let usage = PlacementResourceUsage::new(graph.device());
        proof {
            lemma_nothing_placed(*graph, constraints, placed@);
            assert forall|b: BelId| b.0 < occupied@.len() implies occupied@[b.0 as int]
                == #[trigger] is_taken(placed@, b) by {}
        }
        PlacementState { placed, occupied, usage }
    }

    /// Whether every BEL of the row is free.
    pub fn is_free(&self, row: &Vec<BelId>) -> (result: bool)
        ensures
            result == row_is_free(self.occupied@, row@),
    {
        let mut at: usize = 0;
        while at < row.len()
            invariant
                at <= row@.len(),
                forall|k: int|
                    0 <= k < at ==> (#[trigger] row@[k]).0 < self.occupied@.len()
                        && !self.occupied@[row@[k].0 as int],
            decreases row@.len() - at,
        {
            let bel = row[at];
            if bel.0 >= self.occupied.len() || self.occupied[bel.0] {
                assert(!(row@[at as int].0 < self.occupied@.len()
                    && !self.occupied@[row@[at as int].0 as int]));
                return false;
            }
            at = at + 1;
        }
        true
    }

    /// Whether placing the row shares resources legally.
    pub fn is_legal(
        &mut self,
        graph: &UnifiedGraph<'_>,
        constraints: &PlacementConstraints,
        cells: &Vec<CellId>,
        row: &Vec<BelId>,
    ) -> (result: bool)
        requires
            graph.wf(),
            constraints.wf(),
            bindings_in_range(*graph, constraints),
            old(self).wf(*graph, constraints),
            cells@.len() == row@.len(),
            cells@.no_duplicates(),
            cells_in_range(cells@, graph.design.cells@.len() as int),
            forall|k: int|
                0 <= k < cells@.len() ==> old(self).placed@[(#[trigger] cells@[k]).0 as int]
                    is None,
        ensures
            final(self).wf(*graph, constraints),
            final(self).placed == old(self).placed,
            final(self).occupied == old(self).occupied,
            result == row_is_legal(*graph, constraints, old(self).placed@, cells@, row@),
    {
        assignment_resources_are_legal(
            graph,
            constraints,
            cells,
            row,
            &mut self.usage,
            Ghost(self.placed@),
        )
    }

    /// Places a row.
    pub fn put_row(
        &mut self,
        graph: &UnifiedGraph<'_>,
        constraints: &PlacementConstraints,
        cells: &Vec<CellId>,
        row: &Vec<BelId>,
    )
        requires
            graph.wf(),
            constraints.wf(),
            bindings_in_range(*graph, constraints),
            old(self).wf(*graph, constraints),
            cells@.len() == row@.len(),
            cells@.no_duplicates(),
            row@.no_duplicates(),
            cells_in_range(cells@, graph.design.cells@.len() as int),
            forall|k: int|
                0 <= k < cells@.len() ==> old(self).placed@[(#[trigger] cells@[k]).0 as int]
                    is None,
            row_is_free(old(self).occupied@, row@),
            row_is_legal(*graph, constraints, old(self).placed@, cells@, row@),
        ensures
            final(self).wf(*graph, constraints),
            final(self).placed@ == with_row(old(self).placed@, cells@, row@),
    {
        let ghost before = self.placed@;
        let ghost flags = self.occupied@;
        proof {
            assert(graph.design.cells.len() == graph.design.cells@.len());
            legal_row_keeps_placement_legal(*graph, constraints, before, cells@, row@);
            lemma_with_row(before, cells@, row@);
        }
        update_placement_resource_usage(
            graph,
            constraints,
            cells,
            row,
            &mut self.usage,
            true,
            Ghost(before),
        );
        let mut at: usize = 0;
        while at < cells.len()
            invariant
                at <= cells@.len(),
                cells@.len() == row@.len(),
                cells_in_range(cells@, before.len() as int),
                row_is_free(flags, row@),
                self.placed@.len() == before.len(),
                self.occupied@.len() == flags.len(),
                self.placed@ == with_row(before, cells@.take(at as int), row@.take(at as int)),
                forall|b: BelId|
                    b.0 < flags.len() ==> #[trigger] self.occupied@[b.0 as int] == (
                    flags[b.0 as int] || row@.take(at as int).contains(b)),
                self.usage.tracks(*graph, constraints, with_row(before, cells@, row@)),
            decreases cells@.len() - at,
        {
            let cell = cells[at];
            let bel = row[at];
            let ghost earlier = self.occupied@;
            proof {
                assert(cells@[at as int].0 < before.len());
                assert(row@[at as int].0 < flags.len());
                assert(cells@.take(at + 1).drop_last() =~= cells@.take(at as int));
                assert(row@.take(at + 1).drop_last() =~= row@.take(at as int));
            }
            self.placed.set(cell.0, Some(bel));
            self.occupied.set(bel.0, true);
            proof {
                let shorter = row@.take(at as int);
                let longer = row@.take(at + 1);
                assert(longer =~= shorter.push(bel));
                assert forall|b: BelId| b.0 < flags.len() implies
                #[trigger] self.occupied@[b.0 as int] == (flags[b.0 as int] || longer.contains(b)) by {
                    assert(earlier[b.0 as int] == (flags[b.0 as int] || shorter.contains(b)));
                    assert(longer[at as int] == bel);
                    if shorter.contains(b) {
                        let k = shorter.index_of(b);
                        assert(longer[k] == b);
                    }
                    if longer.contains(b) && b != bel {
                        let k = longer.index_of(b);
                        assert(shorter[k] == b);
                    }
                }
            }
            at = at + 1;
        }
        proof {
            assert(cells@.take(at as int) =~= cells@);
            assert(row@.take(at as int) =~= row@);
            lemma_row_placed(before, cells@, row@, flags, self.occupied@);
        }
    }

    /// Takes the cells out.
    pub fn take_row(
        &mut self,
        graph: &UnifiedGraph<'_>,
        constraints: &PlacementConstraints,
        cells: &Vec<CellId>,
        row: &Vec<BelId>,
    )
        requires
            graph.wf(),
            constraints.wf(),
            bindings_in_range(*graph, constraints),
            old(self).wf(*graph, constraints),
            cells@.len() == row@.len(),
            cells@.no_duplicates(),
            cells_in_range(cells@, graph.design.cells@.len() as int),
            forall|k: int|
                0 <= k < cells@.len() ==> old(self).placed@[(#[trigger] cells@[k]).0 as int]
                    == Some(row@[k]),
        ensures
            final(self).wf(*graph, constraints),
            final(self).placed@ == without_cells(old(self).placed@, cells@),
            row_is_free(final(self).occupied@, row@),
    {
        let ghost before = self.placed@;
        let ghost flags = self.occupied@;
        let ghost after = without_cells(before, cells@);
        proof {
            assert(graph.design.cells.len() == graph.design.cells@.len());
            lemma_without_cells(before, cells@);
            assert forall|c: int| 0 <= c < before.len() implies #[trigger] after[c] is None
                || after[c] == before[c] by {
                if cells@.contains(CellId(c as usize)) {
                    let k = cells@.index_of(CellId(c as usize));
                    assert(after[cells@[k].0 as int] is None);
                }
            }
            legal_parts_are_legal(*graph, constraints, after, before);
        }
        update_placement_resource_usage(
            graph,
            constraints,
            cells,
            row,
            &mut self.usage,
            false,
            Ghost(before),
        );
        let mut at: usize = 0;
        while at < cells.len()
            invariant
                at <= cells@.len(),
                cells@.len() == row@.len(),
                cells_in_range(cells@, before.len() as int),
                before.len() == graph.design.cells@.len(),
                marks_taken(flags, before),
                forall|k: int|
                    0 <= k < cells@.len() ==> before[(#[trigger] cells@[k]).0 as int] == Some(
                        row@[k],
                    ),
                self.placed@.len() == before.len(),
                self.occupied@.len() == flags.len(),
                self.placed@ == without_cells(before, cells@.take(at as int)),
                forall|b: BelId|
                    b.0 < flags.len() ==> #[trigger] self.occupied@[b.0 as int] == (
                    flags[b.0 as int] && !row@.take(at as int).contains(b)),
                self.usage.tracks(*graph, constraints, without_cells(before, cells@)),
            decreases cells@.len() - at,
        {
            let cell = cells[at];
            let bel = row[at];
            let ghost earlier = self.occupied@;
            proof {
                assert(cells@[at as int].0 < before.len());
                assert(before[cells@[at as int].0 as int] == Some(row@[at as int]));
                assert(cells@.take(at + 1).drop_last() =~= cells@.take(at as int));
            }
            self.placed.set(cell.0, None);
            self.occupied.set(bel.0, false);
            proof {
                let shorter = row@.take(at as int);
                let longer = row@.take(at + 1);
                assert(longer =~= shorter.push(bel));
                assert forall|b: BelId| b.0 < flags.len() implies
                #[trigger] self.occupied@[b.0 as int] == (flags[b.0 as int] && !longer.contains(
                    b,
                )) by {
                    assert(earlier[b.0 as int] == (flags[b.0 as int] && !shorter.contains(b)));
                    assert(longer[at as int] == bel);
                    if shorter.contains(b) {
                        let k = shorter.index_of(b);
                        assert(longer[k] == b);
                    }
                    if longer.contains(b) && b != bel {
                        let k = longer.index_of(b);
                        assert(shorter[k] == b);
                    }
                }
            }
            at = at + 1;
        }
        proof {
            assert(cells@.take(at as int) =~= cells@);
            assert(row@.take(at as int) =~= row@);
            lemma_row_taken(before, cells@, row@, flags, self.occupied@);
        }
    }
}

/// Flags stay right when a free row is placed.
proof fn lemma_row_placed(
    before: Seq<Option<BelId>>,
    cells: Seq<CellId>,
    row: Seq<BelId>,
    flags: Seq<bool>,
    after_flags: Seq<bool>,
)
    requires
        before.len() <= usize::MAX,
        cells.len() == row.len(),
        cells.no_duplicates(),
        row.no_duplicates(),
        cells_in_range(cells, before.len() as int),
        forall|k: int| 0 <= k < cells.len() ==> before[(#[trigger] cells[k]).0 as int] is None,
        row_is_free(flags, row),
        marks_taken(flags, before),
        all_apart(before),
        after_flags.len() == flags.len(),
        forall|b: BelId|
            b.0 < flags.len() ==> #[trigger] after_flags[b.0 as int] == (flags[b.0 as int]
                || row.contains(b)),
    ensures
        marks_taken(after_flags, with_row(before, cells, row)),
        all_apart(with_row(before, cells, row)),
{
    let after = with_row(before, cells, row);
    lemma_with_row(before, cells, row);
    assert forall|c: int| 0 <= c < after.len() implies (#[trigger] after[c] matches Some(bel)
        ==> bel.0 < after_flags.len()) by {
        let cell = CellId(c as usize);
        if cells.contains(cell) {
            let k = cells.index_of(cell);
            assert(after[cells[k].0 as int] == Some(row[k]));
            assert(row[k].0 < flags.len());
        } else {
            assert(after[c] == before[c]);
        }
    }
    assert forall|b: BelId| b.0 < after_flags.len() implies after_flags[b.0 as int]
        == #[trigger] is_taken(after, b) by {
        assert(flags[b.0 as int] == is_taken(before, b));
        if after_flags[b.0 as int] {
            if flags[b.0 as int] {
                let c = choose|c: int| 0 <= c < before.len() && #[trigger] before[c] == Some(b);
                let cell = CellId(c as usize);
                if cells.contains(cell) {
                    let k = cells.index_of(cell);
                    assert(before[cells[k].0 as int] is None);
                }
                assert(after[c] == before[c]);
            } else {
                let k = row.index_of(b);
                assert(after[cells[k].0 as int] == Some(row[k]));
            }
        }
        if is_taken(after, b) {
            let c = choose|c: int| 0 <= c < after.len() && #[trigger] after[c] == Some(b);
            let cell = CellId(c as usize);
            if cells.contains(cell) {
                let k = cells.index_of(cell);
                assert(after[cells[k].0 as int] == Some(row[k]));
                assert(row.contains(b));
            } else {
                assert(before[c] == Some(b));
            }
        }
    }
    assert forall|c: int, d: int| 0 <= c < d < after.len() && (#[trigger] after[c]) is Some implies after[c]
        != #[trigger] after[d] by {
        let x = CellId(c as usize);
        let y = CellId(d as usize);
        if cells.contains(x) && cells.contains(y) {
            let k = cells.index_of(x);
            let l = cells.index_of(y);
            assert(after[cells[k].0 as int] == Some(row[k]));
            assert(after[cells[l].0 as int] == Some(row[l]));
            assert(k != l);
        } else if cells.contains(x) {
            let k = cells.index_of(x);
            assert(after[cells[k].0 as int] == Some(row[k]));
            assert(after[d] == before[d]);
            if before[d] == Some(row[k]) {
                assert(is_taken(before, row[k]));
                assert(!flags[row[k].0 as int]);
            }
        } else if cells.contains(y) {
            let l = cells.index_of(y);
            assert(after[cells[l].0 as int] == Some(row[l]));
            assert(after[c] == before[c]);
            if before[c] == Some(row[l]) {
                assert(is_taken(before, row[l]));
                assert(!flags[row[l].0 as int]);
            }
        } else {
            assert(after[c] == before[c]);
            assert(after[d] == before[d]);
        }
    }
}

/// Flags stay right when a row is taken out.
proof fn lemma_row_taken(
    before: Seq<Option<BelId>>,
    cells: Seq<CellId>,
    row: Seq<BelId>,
    flags: Seq<bool>,
    after_flags: Seq<bool>,
)
    requires
        before.len() <= usize::MAX,
        cells.len() == row.len(),
        cells_in_range(cells, before.len() as int),
        forall|k: int|
            0 <= k < cells.len() ==> before[(#[trigger] cells[k]).0 as int] == Some(row[k]),
        marks_taken(flags, before),
        all_apart(before),
        after_flags.len() == flags.len(),
        forall|b: BelId|
            b.0 < flags.len() ==> #[trigger] after_flags[b.0 as int] == (flags[b.0 as int]
                && !row.contains(b)),
    ensures
        marks_taken(after_flags, without_cells(before, cells)),
        all_apart(without_cells(before, cells)),
        row_is_free(after_flags, row),
{
    let after = without_cells(before, cells);
    lemma_without_cells(before, cells);
    assert forall|c: int| 0 <= c < after.len() implies #[trigger] after[c] is None || after[c]
        == before[c] by {
        if cells.contains(CellId(c as usize)) {
            let k = cells.index_of(CellId(c as usize));
            assert(after[cells[k].0 as int] is None);
        }
    }
    assert forall|b: BelId| b.0 < after_flags.len() implies after_flags[b.0 as int]
        == #[trigger] is_taken(after, b) by {
        assert(flags[b.0 as int] == is_taken(before, b));
        if after_flags[b.0 as int] {
            let c = choose|c: int| 0 <= c < before.len() && #[trigger] before[c] == Some(b);
            let cell = CellId(c as usize);
            if cells.contains(cell) {
                let k = cells.index_of(cell);
                assert(before[cells[k].0 as int] == Some(row[k]));
                assert(row.contains(row[k]));
            }
            assert(after[c] == before[c]);
        }
        if is_taken(after, b) {
            let c = choose|c: int| 0 <= c < after.len() && #[trigger] after[c] == Some(b);
            assert(before[c] == Some(b));
            if row.contains(b) {
                let k = row.index_of(b);
                assert(before[cells[k].0 as int] == Some(row[k]));
                let d = cells[k].0 as int;
                assert(after[cells[k].0 as int] is None);
                assert(c != d);
                if c < d {
                    assert(before[c] != before[d]);
                } else {
                    assert(before[d] != before[c]);
                }
            }
        }
    }
    assert forall|c: int, d: int| 0 <= c < d < after.len() && (#[trigger] after[c]) is Some implies after[c]
        != #[trigger] after[d] by {
        assert(after[c] == before[c]);
        assert(after[d] is None || after[d] == before[d]);
    }
    assert forall|k: int| 0 <= k < row.len() implies (#[trigger] row[k]).0 < after_flags.len()
        && !after_flags[row[k].0 as int] by {
        assert(before[cells[k].0 as int] == Some(row[k]));
        assert(row.contains(row[k]));
    }
}

} // verus!
