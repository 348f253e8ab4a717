//! A move of a detailed refinement is made.

use vstd::prelude::*;

use crate::bbox_cache::DetailedBoundingBoxDeltaWorkspace;
use crate::detail::{lemma_sole_owner, owns, row_of, tracks_owners, unowned, DetailedProblem};
use crate::detail_pick::BestMove;
use crate::detail_state::{patched, DetailedState};
use crate::detail_step::MoveCosts;
use crate::families::lemma_family_rows;
use crate::model::{BelId, CellId};
use crate::ordered::increasing_has_no_duplicates;
use crate::placement_state::{all_apart, is_taken, row_is_free, PlacementState};
use crate::refine::lemma_others_stand;
use crate::refiner::PlacementDelayEstimator;
use crate::standing::units_stand;
use crate::unit_list::is_covered;
use crate::usage_model::{
    cells_in_range, lemma_with_row, lemma_without_cells, with_row, without_cells,
};

verus! {

/// Taking cells out before they are placed anew changes nothing.
proof fn lemma_replaced(placed: Seq<Option<BelId>>, cells: Seq<CellId>, row: Seq<BelId>)
    requires
        cells.len() == row.len(),
        cells.no_duplicates(),
        cells_in_range(cells, placed.len() as int),
        placed.len() <= usize::MAX,
    ensures
        with_row(without_cells(placed, cells), cells, row) == with_row(placed, cells, row),
{
    let empty = without_cells(placed, cells);
    lemma_without_cells(placed, cells);
    lemma_with_row(empty, cells, row);
    lemma_with_row(placed, cells, row);
    let a = with_row(empty, cells, row);
    let b = with_row(placed, cells, row);
    assert forall|c: int| 0 <= c < a.len() implies a[c] == b[c] by {
        let cell = CellId(c as usize);
        if cells.contains(cell) {
            let k = cells.index_of(cell);
            assert(a[cells[k].0 as int] == Some(row[k]));
            assert(b[cells[k].0 as int] == Some(row[k]));
        } else {
            assert(a[c] == empty[c]);
            assert(empty[c] == placed[c]);
            assert(b[c] == placed[c]);
        }
    }
    assert(a =~= b);
}

/// Two rows are placed one after the other as they are together.
proof fn lemma_both_replaced(
    placed: Seq<Option<BelId>>,
    cells: Seq<CellId>,
    row: Seq<BelId>,
    others: Seq<CellId>,
    other_row: Seq<BelId>,
)
    requires
        cells.len() == row.len(),
        others.len() == other_row.len(),
        (cells + others).no_duplicates(),
        cells_in_range(cells, placed.len() as int),
        cells_in_range(others, placed.len() as int),
        placed.len() <= usize::MAX,
    ensures
        with_row(
            with_row(without_cells(without_cells(placed, cells), others), cells, row),
            others,
            other_row,
        ) == with_row(placed, cells + others, row + other_row),
        with_row(
            without_cells(with_row(without_cells(placed, cells), cells, row), others),
            others,
            other_row,
        ) == with_row(placed, cells + others, row + other_row),
{
    let both = cells + others;
    let rows = row + other_row;
    assert(cells.no_duplicates()) by {
        assert forall|i: int, j: int| 0 <= i < cells.len() && 0 <= j < cells.len() && i
            != j implies cells[i] != cells[j] by {
            assert(both[i] == cells[i] && both[j] == cells[j]);
        }
    }
    assert(others.no_duplicates()) by {
        assert forall|i: int, j: int| 0 <= i < others.len() && 0 <= j < others.len() && i
            != j implies others[i] != others[j] by {
            assert(both[cells.len() + i] == others[i] && both[cells.len() + j] == others[j]);
        }
    }
    assert(cells_in_range(both, placed.len() as int)) by {
        assert forall|k: int| 0 <= k < both.len() implies (#[trigger] both[k]).0
            < placed.len() by {
            if k < cells.len() {
                assert(both[k] == cells[k]);
            } else {
                assert(both[k] == others[k - cells.len()]);
            }
        }
    }
    let lifted = without_cells(placed, cells);
    let empty = without_cells(lifted, others);
    let first = with_row(empty, cells, row);
    let second = with_row(first, others, other_row);
    let alone = with_row(lifted, cells, row);
    let cleared = without_cells(alone, others);
    let third = with_row(cleared, others, other_row);
    let end = with_row(placed, both, rows);
    lemma_without_cells(placed, cells);
    lemma_without_cells(lifted, others);
    lemma_with_row(empty, cells, row);
    lemma_with_row(first, others, other_row);
    lemma_with_row(lifted, cells, row);
    lemma_without_cells(alone, others);
    lemma_with_row(cleared, others, other_row);
    lemma_with_row(placed, both, rows);
    assert forall|c: int| 0 <= c < placed.len() implies second[c] == end[c] && third[c]
        == end[c] by {
        let cell = CellId(c as usize);
        if others.contains(cell) {
            let k = others.index_of(cell);
            assert(both[cells.len() + k] == cell);
            assert(second[others[k].0 as int] == Some(other_row[k]));
            assert(third[others[k].0 as int] == Some(other_row[k]));
            assert(end[both[cells.len() + k].0 as int] == Some(rows[cells.len() + k]));
        } else if cells.contains(cell) {
            let k = cells.index_of(cell);
            assert(both[k] == cell);
            assert(first[cells[k].0 as int] == Some(row[k]));
            assert(alone[cells[k].0 as int] == Some(row[k]));
            assert(second[c] == first[c]);
            assert(cleared[c] == alone[c]);
            assert(third[c] == cleared[c]);
            assert(end[both[k].0 as int] == Some(rows[k]));
        } else {
            assert(!both.contains(cell)) by {
                if both.contains(cell) {
                    let k = both.index_of(cell);
                    if k < cells.len() {
                        assert(cells[k] == cell);
                    } else {
                        assert(others[k - cells.len()] == cell);
                    }
                }
            }
            assert(lifted[c] == placed[c]);
            assert(empty[c] == lifted[c]);
            assert(first[c] == empty[c]);
            assert(second[c] == first[c]);
            assert(alone[c] == lifted[c]);
            assert(cleared[c] == alone[c]);
            assert(third[c] == cleared[c]);
            assert(end[c] == placed[c]);
        }
    }
    assert(second =~= end);
    assert(third =~= end);
}

impl<'a, E: PlacementDelayEstimator> DetailedProblem<'a, E> {
    /// A cell that stands on a BEL belongs to a unit that owns the BEL.
    proof fn lemma_cell_owned(&self, placed: Seq<Option<BelId>>, cell: int, bel: BelId) -> (unit:
        int)
        requires
            self.wf(),
            placed.len() == self.graph.design.cells@.len(),
            placed.len() <= usize::MAX,
            0 <= cell < placed.len(),
            placed[cell] == Some(bel),
        ensures
            0 <= unit < self.units@.len(),
            owns(self.units@[unit], placed, bel),
            self.units@[unit].cells@.contains(CellId(cell as usize)),
    {
        let id = CellId(cell as usize);
        assert(is_covered(self.units@, id));
        let u = choose|u: int| 0 <= u < self.units@.len() && (#[trigger] self.units@[u]).cells@.contains(id);
        let k = self.units@[u].cells@.index_of(id);
        assert(placed[self.units@[u].cells@[k].0 as int] == Some(bel));
        u
    }

    /// After the move, every unit stands.
    proof fn lemma_trial_stands(
        &self,
        placed: Seq<Option<BelId>>,
        moving: int,
        choice: int,
        partner: Option<usize>,
    )
        requires
            self.wf(),
            placed.len() == self.graph.design.cells@.len(),
            placed.len() <= usize::MAX,
            units_stand(self.units@, placed),
            0 <= moving < self.units@.len(),
            0 <= choice < self.units@[moving].choices.count(),
            self.is_destination(
                placed,
                moving,
                self.units@[moving].choices.row(choice),
                partner,
            ),
        ensures
            units_stand(self.units@, self.trial(placed, moving, choice, partner)),
    {
        let unit = self.units@[moving];
        let row = unit.choices.row(choice);
        self.lemma_moved(placed, moving, choice, partner);
        self.lemma_unit_stands(placed, moving);
        lemma_others_stand(self.graph, self.constraints, self.units@, placed, moving, choice);
        lemma_replaced(placed, unit.cells@, row);
        if let Some(other) = partner {
            let with = self.units@[other as int];
            let middle = with_row(without_cells(placed, unit.cells@), unit.cells@, row);
            self.lemma_unit_stands(placed, other as int);
            lemma_with_row(placed, unit.cells@, row);
            lemma_family_rows(
                self.graph,
                self.constraints,
                self.units@,
                self.families@,
                moving,
                other as int,
            );
            let back = choose|i: int|
                0 <= i < unit.choices.count() && #[trigger] unit.choices.row(i) == row_of(
                    unit,
                    placed,
                );
            assert(with.choices.row(back) == unit.choices.row(back));
            lemma_others_stand(
                self.graph,
                self.constraints,
                self.units@,
                middle,
                other as int,
                back,
            );
            lemma_both_replaced(
                placed,
                unit.cells@,
                row,
                with.cells@,
                row_of(unit, placed),
            );
        }
    }

    /// Who owns what after the move.
    proof fn lemma_trial_owners(
        &self,
        placed: Seq<Option<BelId>>,
        moving: int,
        choice: int,
        partner: Option<usize>,
        unit: int,
        bel: BelId,
    )
        requires
            self.wf(),
            placed.len() == self.graph.design.cells@.len(),
            placed.len() <= usize::MAX,
            units_stand(self.units@, placed),
            0 <= moving < self.units@.len(),
            0 <= choice < self.units@[moving].choices.count(),
            self.is_destination(
                placed,
                moving,
                self.units@[moving].choices.row(choice),
                partner,
            ),
            0 <= unit < self.units@.len(),
        ensures
            owns(self.units@[unit], self.trial(placed, moving, choice, partner), bel) == if unit
                == moving {
                self.units@[moving].choices.row(choice).contains(bel)
            } else if partner == Some(unit as usize) {
                row_of(self.units@[moving], placed).contains(bel)
            } else {
                owns(self.units@[unit], placed, bel)
            },
    {
        let it = self.units@[moving];
        let row = it.choices.row(choice);
        let cells = self.moved_cells(moving, partner);
        let rows = self.moved_row(placed, moving, choice, partner);
        let after = self.trial(placed, moving, choice, partner);
        let me = self.units@[unit];
        self.lemma_moved(placed, moving, choice, partner);
        self.lemma_unit_stands(placed, moving);
        self.lemma_unit_stands(placed, unit);
        lemma_with_row(placed, cells, rows);
        assert(self.units.len() == self.units@.len());
        if unit == moving {
            assert forall|k: int| 0 <= k < me.cells@.len() implies after[(
            #[trigger] me.cells@[k]).0 as int] == Some(row[k]) by {
                assert(cells[k] == me.cells@[k]);
                assert(rows[k] == row[k]);
                assert(after[cells[k].0 as int] == Some(rows[k]));
            }
            if row.contains(bel) {
                let k = row.index_of(bel);
                assert(after[me.cells@[k].0 as int] == Some(bel));
            }
            if owns(me, after, bel) {
                let k = choose|k: int|
                    0 <= k < me.cells@.len() && after[(#[trigger] me.cells@[k]).0 as int] == Some(
                        bel,
                    );
                assert(row[k] == bel);
            }
        } else if partner == Some(unit as usize) {
            let back = row_of(it, placed);
            assert(me.cells@.len() == it.cells@.len()) by {
                assert(row_of(me, placed) == row);
            }
            assert forall|k: int| 0 <= k < me.cells@.len() implies after[(
            #[trigger] me.cells@[k]).0 as int] == Some(back[k]) by {
                let at = it.cells@.len() + k;
                assert(cells[at] == me.cells@[k]);
                assert(rows[at] == back[k]);
                assert(after[cells[at].0 as int] == Some(rows[at]));
            }
            if back.contains(bel) {
                let k = back.index_of(bel);
                assert(after[me.cells@[k].0 as int] == Some(bel));
            }
            if owns(me, after, bel) {
                let k = choose|k: int|
                    0 <= k < me.cells@.len() && after[(#[trigger] me.cells@[k]).0 as int] == Some(
                        bel,
                    );
                assert(back[k] == bel);
            }
        } else {
            assert forall|k: int| 0 <= k < me.cells@.len() implies after[(
            #[trigger] me.cells@[k]).0 as int] == placed[me.cells@[k].0 as int] by {
                let cell = me.cells@[k];
                assert(CellId((cell.0 as int) as usize) == cell);
                assert(!cells.contains(cell)) by {
                    if it.cells@.contains(cell) {
                        let l = it.cells@.index_of(cell);
                        assert(self.units@[moving].cells@[l] == self.units@[unit].cells@[k]);
                    }
                    if let Some(other) = partner {
                        if self.units@[other as int].cells@.contains(cell) {
                            let l = self.units@[other as int].cells@.index_of(cell);
                            assert(self.units@[other as int].cells@[l]
                                == self.units@[unit].cells@[k]);
                            assert(other == unit);
                        }
                    }
                }
                assert(after[cell.0 as int] == placed[cell.0 as int]);
            }
            if owns(me, placed, bel) {
                let k = choose|k: int|
                    0 <= k < me.cells@.len() && placed[(#[trigger] me.cells@[k]).0 as int] == Some(
                        bel,
                    );
                assert(after[me.cells@[k].0 as int] == Some(bel));
            }
            if owns(me, after, bel) {
                let k = choose|k: int|
                    0 <= k < me.cells@.len() && after[(#[trigger] me.cells@[k]).0 as int] == Some(
                        bel,
                    );
                assert(placed[me.cells@[k].0 as int] == Some(bel));
            }
        }
    }

    /// The row is free once whoever stands there is taken out.
    proof fn lemma_row_freed(
        &self,
        placed: Seq<Option<BelId>>,
        moving: int,
        row: Seq<BelId>,
        gone: Seq<CellId>,
        state: PlacementState,
    )
        requires
            self.wf(),
            placed.len() == self.graph.design.cells@.len(),
            placed.len() <= usize::MAX,
            0 <= moving < self.units@.len(),
            self.is_destination(placed, moving, row, None),
            forall|k: int|
                0 <= k < row.len() ==> (#[trigger] row[k]).0 < self.graph.device.bels@.len(),
            state.wf(self.graph, self.constraints),
            gone == self.units@[moving].cells@,
            cells_in_range(gone, placed.len() as int),
            state.placed@ == without_cells(placed, gone),
        ensures
            row_is_free(state.occupied@, row),
    {
        lemma_without_cells(placed, gone);
        assert forall|k: int| 0 <= k < row.len() implies (#[trigger] row[k]).0
            < state.occupied@.len() && !state.occupied@[row[k].0 as int] by {
            let bel = row[k];
            if is_taken(state.placed@, bel) {
                let c = choose|c: int|
                    0 <= c < state.placed@.len() && #[trigger] state.placed@[c] == Some(bel);
                let cell = CellId(c as usize);
                assert(!gone.contains(cell)) by {
                    if gone.contains(cell) {
                        let l = gone.index_of(cell);
                        assert(state.placed@[gone[l].0 as int] is None);
                    }
                }
                assert(placed[c] == Some(bel));
                let u = self.lemma_cell_owned(placed, c, bel);
                assert(owns(self.units@[u], placed, row[k]));
                assert(u == moving);
            }
            assert(state.occupied@[bel.0 as int] == is_taken(state.placed@, bel));
        }
    }

    /// Moves the unit, and the one that it swaps with.
    fn move_units(
        &self,
        moving: usize,
        current: &Vec<BelId>,
        choice: usize,
        partner: Option<usize>,
        state: &mut PlacementState,
    )
        requires
            self.wf(),
            moving < self.units@.len(),
            choice < self.units@[moving as int].choices.count(),
            old(state).wf(self.graph, self.constraints),
            units_stand(self.units@, old(state).placed@),
            current@ == row_of(self.units@[moving as int], old(state).placed@),
            self.is_destination(
                old(state).placed@,
                moving as int,
                self.units@[moving as int].choices.row(choice as int),
                partner,
            ),
            self.is_legal_move(
                old(state).placed@,
                moving as int,
                self.units@[moving as int].choices.row(choice as int),
                partner,
            ),
        ensures
            final(state).wf(self.graph, self.constraints),
            final(state).placed@ == self.trial(
                old(state).placed@,
                moving as int,
                choice as int,
                partner,
            ),
    {
        let unit = &self.units[moving];
        let row = unit.choices.assignment(choice);
        let ghost placed = state.placed@;
        proof {
            assert(state.placed.len() == state.placed@.len());
            self.lemma_unit_stands(placed, moving as int);
            self.lemma_moved(placed, moving as int, choice as int, partner);
        }
        state.take_row(&self.graph, self.constraints, &unit.cells, current);
        let ghost lifted = state.placed@;
        proof {
            lemma_without_cells(placed, unit.cells@);
        }
        match partner {
            None => {
                proof {
                    assert forall|k: int| 0 <= k < row@.len() implies (#[trigger] row@[k]).0
                        < self.graph.device.bels@.len() by {
                        assert(self.moved_row(placed, moving as int, choice as int, partner)[k].0
                            < self.graph.device.bels@.len());
                    }
                    self.lemma_row_freed(placed, moving as int, row@, unit.cells@, *state);
                    lemma_replaced(placed, unit.cells@, row@);
                }
                state.put_row(&self.graph, self.constraints, &unit.cells, &row);
            },
            Some(other) => {
                let with = &self.units[other];
                proof {
                    self.lemma_unit_stands(placed, other as int);
                    assert(row_of(*with, placed) == row@);
                    assert forall|k: int| 0 <= k < with.cells@.len() implies lifted[(
                    #[trigger] with.cells@[k]).0 as int] == Some(row@[k]) by {
                        let cell = with.cells@[k];
                        assert(CellId((cell.0 as int) as usize) == cell);
                        if unit.cells@.contains(cell) {
                            let l = unit.cells@.index_of(cell);
                            assert(self.units@[moving as int].cells@[l]
                                == self.units@[other as int].cells@[k]);
                        }
                        assert(lifted[cell.0 as int] == placed[cell.0 as int]);
                        assert(placed[self.units@[other as int].cells@[k].0 as int] == Some(
                            row_of(self.units@[other as int], placed)[k],
                        ));
                    }
                }
                state.take_row(&self.graph, self.constraints, &with.cells, &row);
                let ghost empty = state.placed@;
                proof {
                    lemma_without_cells(lifted, with.cells@);
                    assert forall|k: int| 0 <= k < unit.cells@.len() implies empty[(
                    #[trigger] unit.cells@[k]).0 as int] is None by {
                        let cell = unit.cells@[k];
                        assert(CellId((cell.0 as int) as usize) == cell);
                        assert(lifted[unit.cells@[k].0 as int] is None);
                        if with.cells@.contains(cell) {
                            let l = with.cells@.index_of(cell);
                            assert(empty[with.cells@[l].0 as int] is None);
                        } else {
                            assert(empty[cell.0 as int] == lifted[cell.0 as int]);
                        }
                    }
                }
                state.put_row(&self.graph, self.constraints, &unit.cells, &row);
                proof {
                    lemma_with_row(empty, unit.cells@, row@);
                    assert forall|k: int| 0 <= k < with.cells@.len() implies state.placed@[(
                    #[trigger] with.cells@[k]).0 as int] is None by {
                        let cell = with.cells@[k];
                        assert(CellId((cell.0 as int) as usize) == cell);
                        if unit.cells@.contains(cell) {
                            let l = unit.cells@.index_of(cell);
                            assert(self.units@[moving as int].cells@[l]
                                == self.units@[other as int].cells@[k]);
                        }
                        assert(state.placed@[cell.0 as int] == empty[cell.0 as int]);
                    }
                    self.lemma_swapped_free(
                        placed,
                        moving as int,
                        choice as int,
                        other,
                        *state,
                    );
                    lemma_both_replaced(placed, unit.cells@, row@, with.cells@, current@);
                }
                state.put_row(&self.graph, self.constraints, &with.cells, current);
            },
        }
    }

    /// Where the unit stood is free for the one that it swaps with.
    proof fn lemma_swapped_free(
        &self,
        placed: Seq<Option<BelId>>,
        moving: int,
        choice: int,
        partner: usize,
        state: PlacementState,
    )
        requires
            self.wf(),
            placed.len() == self.graph.design.cells@.len(),
            placed.len() <= usize::MAX,
            all_apart(placed),
            units_stand(self.units@, placed),
            0 <= moving < self.units@.len(),
            0 <= choice < self.units@[moving].choices.count(),
            self.is_destination(
                placed,
                moving,
                self.units@[moving].choices.row(choice),
                Some(partner),
            ),
            state.wf(self.graph, self.constraints),
            state.placed@ == with_row(
                without_cells(
                    without_cells(placed, self.units@[moving].cells@),
                    self.units@[partner as int].cells@,
                ),
                self.units@[moving].cells@,
                self.units@[moving].choices.row(choice),
            ),
        ensures
            row_is_free(state.occupied@, row_of(self.units@[moving], placed)),
    {
        let unit = self.units@[moving];
        let with = self.units@[partner as int];
        let row = unit.choices.row(choice);
        let current = row_of(unit, placed);
        let lifted = without_cells(placed, unit.cells@);
        let empty = without_cells(lifted, with.cells@);
        self.lemma_moved(placed, moving, choice, Some(partner));
        self.lemma_unit_stands(placed, moving);
        self.lemma_unit_stands(placed, partner as int);
        lemma_without_cells(placed, unit.cells@);
        lemma_without_cells(lifted, with.cells@);
        lemma_with_row(empty, unit.cells@, row);
        assert forall|k: int| 0 <= k < current.len() implies (#[trigger] current[k]).0
            < state.occupied@.len() && !state.occupied@[current[k].0 as int] by {
            let bel = current[k];
            assert(row_of(unit, placed)[k].0 < self.graph.device.bels@.len());
            assert(owns(unit, placed, bel)) by {
                assert(placed[unit.cells@[k].0 as int] == Some(bel));
            }
            if is_taken(state.placed@, bel) {
                let c = choose|c: int|
                    0 <= c < state.placed@.len() && #[trigger] state.placed@[c] == Some(bel);
                let cell = CellId(c as usize);
                if unit.cells@.contains(cell) {
                    let l = unit.cells@.index_of(cell);
                    assert(state.placed@[unit.cells@[l].0 as int] == Some(row[l]));
                    assert(row[l] == bel);
                    assert(row_of(with, placed)[l] == bel);
                    assert(placed[with.cells@[l].0 as int] == Some(row_of(with, placed)[l]));
                    assert(owns(with, placed, bel));
                    lemma_sole_owner(
                        self.graph,
                        self.constraints,
                        self.units@,
                        placed,
                        bel,
                        moving,
                        partner as int,
                    );
                } else {
                    assert(state.placed@[c] == empty[c]);
                    assert(!with.cells@.contains(cell)) by {
                        if with.cells@.contains(cell) {
                            let l = with.cells@.index_of(cell);
                            assert(empty[with.cells@[l].0 as int] is None);
                        }
                    }
                    assert(empty[c] == lifted[c]);
                    assert(lifted[c] == placed[c]);
                    let u = self.lemma_cell_owned(placed, c, bel);
                    lemma_sole_owner(
                        self.graph,
                        self.constraints,
                        self.units@,
                        placed,
                        bel,
                        moving,
                        u,
                    );
                }
            }
            assert(state.occupied@[bel.0 as int] == is_taken(state.placed@, bel));
        }
    }
}

/// Names the owner of each BEL of a row.
fn set_owner(owners: &mut Vec<Option<usize>>, row: &Vec<BelId>, owner: Option<usize>)
    requires
        forall|k: int| 0 <= k < row@.len() ==> (#[trigger] row@[k]).0 < old(owners)@.len(),
    ensures
        final(owners)@.len() == old(owners)@.len(),
        forall|b: BelId|
            b.0 < old(owners)@.len() ==> #[trigger] final(owners)@[b.0 as int] == if row@.contains(
                b,
            ) {
                owner
            } else {
                old(owners)@[b.0 as int]
            },
{
    let ghost before = owners@;
    let mut at: usize = 0;
    while at < row.len()
        invariant
            at <= row@.len(),
            owners@.len() == before.len(),
            forall|k: int| 0 <= k < row@.len() ==> (#[trigger] row@[k]).0 < before.len(),
            forall|b: BelId|
                b.0 < before.len() ==> #[trigger] owners@[b.0 as int] == if row@.take(
                    at as int,
                ).contains(b) {
                    owner
                } else {
                    before[b.0 as int]
                },
        decreases row@.len() - at,
    {
        let bel = row[at];
        assert(row@[at as int].0 < before.len());
        let ghost middle = owners@;
        owners.set(bel.0, owner);
        proof {
            assert forall|b: BelId| b.0 < before.len() implies #[trigger] owners@[b.0 as int]
                == if row@.take(at + 1).contains(b) {
                owner
            } else {
                before[b.0 as int]
            } by {
                let first = row@.take(at as int);
                let more = row@.take(at + 1);
                assert(more =~= first.push(bel));
                if first.contains(b) {
                    let k = first.index_of(b);
                    assert(more[k] == b);
                }
                if b == bel {
                    assert(more[at as int] == b);
                } else {
                    assert(owners@[b.0 as int] == middle[b.0 as int]);
                    if more.contains(b) {
                        let k = more.index_of(b);
                        assert(first[k] == b);
                    }
                }
            }
        }
        at = at + 1;
    }
    assert(row@.take(at as int) =~= row@);
}

impl<'a, E: PlacementDelayEstimator> DetailedProblem<'a, E> {
    /// Names the owners after the move.
    fn update_owners(
        &self,
        moving: usize,
        current: &Vec<BelId>,
        choice: usize,
        partner: Option<usize>,
        owners: &mut Vec<Option<usize>>,
        Ghost(placed): Ghost<Seq<Option<BelId>>>,
    )
        requires
            self.wf(),
            moving < self.units@.len(),
            choice < self.units@[moving as int].choices.count(),
            placed.len() == self.graph.design.cells@.len(),
            placed.len() <= usize::MAX,
            all_apart(placed),
            units_stand(self.units@, placed),
            current@ == row_of(self.units@[moving as int], placed),
            self.is_destination(
                placed,
                moving as int,
                self.units@[moving as int].choices.row(choice as int),
                partner,
            ),
            old(owners)@.len() == self.graph.device.bels@.len(),
            tracks_owners(self.units@, placed, old(owners)@),
        ensures
            final(owners)@.len() == self.graph.device.bels@.len(),
            tracks_owners(
                self.units@,
                self.trial(placed, moving as int, choice as int, partner),
                final(owners)@,
            ),
    {
        let row = self.units[moving].choices.assignment(choice);
        let ghost before = owners@;
        let ghost after = self.trial(placed, moving as int, choice as int, partner);
        proof {
            self.lemma_moved(placed, moving as int, choice as int, partner);
            self.lemma_unit_stands(placed, moving as int);
            assert forall|k: int| 0 <= k < row@.len() implies (#[trigger] row@[k]).0
                < owners@.len() by {
                assert(self.moved_row(placed, moving as int, choice as int, partner)[k].0
                    < self.graph.device.bels@.len());
            }
        }
        match partner {
            None => {
                set_owner(owners, current, None);
                let ghost middle = owners@;
                set_owner(owners, &row, Some(moving));
                proof {
                    assert forall|b: BelId| b.0 < owners@.len() implies #[trigger] owners@[b.0 as int]
                        == if row@.contains(b) {
                        Some(moving)
                    } else if current@.contains(b) {
                        None
                    } else {
                        before[b.0 as int]
                    } by {
                        assert(middle[b.0 as int] == if current@.contains(b) {
                            None::<usize>
                        } else {
                            before[b.0 as int]
                        });
                    }
                }
            },
            Some(other) => {
                set_owner(owners, &row, Some(moving));
                let ghost middle = owners@;
                set_owner(owners, current, Some(other));
                proof {
                    assert forall|b: BelId| b.0 < owners@.len() implies #[trigger] owners@[b.0 as int]
                        == if current@.contains(b) {
                        Some(other)
                    } else if row@.contains(b) {
                        Some(moving)
                    } else {
                        before[b.0 as int]
                    } by {
                        assert(middle[b.0 as int] == if row@.contains(b) {
                            Some(moving)
                        } else {
                            before[b.0 as int]
                        });
                    }
                }
            },
        }
        proof {
            assert(self.units.len() == self.units@.len());
            assert forall|b: BelId|
                #![trigger owners@[b.0 as int]]
                b.0 < owners@.len() implies match owners@[b.0 as int] {
                Some(u) => u < self.units@.len() && owns(self.units@[u as int], after, b),
                None => unowned(self.units@, after, b),
            } by {
                assert(match before[b.0 as int] {
                    Some(u) => u < self.units@.len() && owns(self.units@[u as int], placed, b),
                    None => unowned(self.units@, placed, b),
                });
                self.lemma_trial_owners(
                    placed,
                    moving as int,
                    choice as int,
                    partner,
                    moving as int,
                    b,
                );
                assert(owns(self.units@[moving as int], placed, b) <==> current@.contains(b)) by {
                    lemma_owns_row(self.units@[moving as int], placed, b);
                }
                if let Some(other) = partner {
                    self.lemma_trial_owners(
                        placed,
                        moving as int,
                        choice as int,
                        partner,
                        other as int,
                        b,
                    );
                    self.lemma_unit_stands(placed, other as int);
                    assert(owns(self.units@[other as int], placed, b) <==> row@.contains(b)) by {
                        lemma_owns_row(self.units@[other as int], placed, b);
                    }
                }
                match before[b.0 as int] {
                    Some(u) => {
                        self.lemma_trial_owners(
                            placed,
                            moving as int,
                            choice as int,
                            partner,
                            u as int,
                            b,
                        );
                        if owns(self.units@[moving as int], placed, b) {
                            lemma_sole_owner(
                                self.graph,
                                self.constraints,
                                self.units@,
                                placed,
                                b,
                                u as int,
                                moving as int,
                            );
                        }
                        if let Some(other) = partner {
                            if owns(self.units@[other as int], placed, b) {
                                lemma_sole_owner(
                                    self.graph,
                                    self.constraints,
                                    self.units@,
                                    placed,
                                    b,
                                    u as int,
                                    other as int,
                                );
                            }
                        }
                    },
                    None => {
                        assert(!owns(self.units@[moving as int], placed, b));
                        if let Some(other) = partner {
                            assert(!owns(self.units@[other as int], placed, b));
                        }
                    },
                }
                if owners@[b.0 as int] is None {
                    assert forall|u: int| 0 <= u < self.units@.len() implies !owns(
                        #[trigger] self.units@[u],
                        after,
                        b,
                    ) by {
                        self.lemma_trial_owners(
                            placed,
                            moving as int,
                            choice as int,
                            partner,
                            u,
                            b,
                        );
                        if u != moving && partner != Some(u as usize) {
                            if owns(self.units@[u], placed, b) {
                                if before[b.0 as int] is None {
                                    assert(!owns(self.units@[u], placed, b));
                                } else {
                                    lemma_sole_owner(
                                        self.graph,
                                        self.constraints,
                                        self.units@,
                                        placed,
                                        b,
                                        u,
                                        moving as int,
                                    );
                                }
                            }
                        }
                    }
                }
            }
        }
    }

    /// Makes the move.
    pub(crate) fn accept(
        &self,
        moving: usize,
        current: &Vec<BelId>,
        best: BestMove,
        detailed: &mut DetailedState,
        workspace: &mut DetailedBoundingBoxDeltaWorkspace,
        normalizer: (u128, u128),
        Ghost(costs): Ghost<Map<usize, MoveCosts>>,
    )
        requires
            self.wf(),
            old(detailed).holds(self),
            old(workspace).wf(self.graph.design.nets@.len() as int),
            moving < self.units@.len(),
            current@ == row_of(self.units@[moving as int], old(detailed).state.placed@),
            self.is_offered(
                old(detailed).state.placed@,
                moving as int,
                best.choice as int,
                best.partner,
            ),
            self.is_evaluated(*old(detailed), moving as int, normalizer, costs, best),
            self.is_evaluation(
                old(detailed).timing_arcs@,
                self.trial(
                    old(detailed).state.placed@,
                    moving as int,
                    best.choice as int,
                    best.partner,
                ),
                self.moved_cells(moving as int, best.partner),
                costs[best.choice],
            ),
        ensures
            final(workspace).wf(self.graph.design.nets@.len() as int),
            final(detailed).holds(self),
            final(detailed).state.placed@ == self.trial(
                old(detailed).state.placed@,
                moving as int,
                best.choice as int,
                best.partner,
            ),
            costs[best.choice] == Some(final(detailed).timing_arcs@),
    {
        let ghost placed = detailed.state.placed@;
        let ghost timing = detailed.timing_arcs@;
        let ghost after = self.trial(
            placed,
            moving as int,
            best.choice as int,
            best.partner,
        );
        proof {
            detailed.lemma_complete(self);
            self.lemma_offered(placed, moving as int, best.choice as int, best.partner);
            self.lemma_moved(placed, moving as int, best.choice as int, best.partner);
        }
        let lifted = detailed.net_bbox.trial_deltas(
            &self.graph,
            &best.scope.cells,
            &best.scope.row,
            &detailed.state.placed,
            workspace,
        );
        detailed.net_bbox.apply_deltas(
            workspace,
            Ghost(self.graph),
            Ghost(placed),
            Ghost(lifted@),
            Ghost(after),
        );
        let ghost new = patched(timing, best.scope.listed@, best.found.prices@);
        let mut at: usize = 0;
        proof {
            increasing_has_no_duplicates(best.scope.listed@);
            assert(self.arcs.len() == self.arcs@.len());
        }
        while at < best.scope.listed.len()
            invariant
                at <= best.scope.listed@.len(),
                best.scope.listed@.no_duplicates(),
                best.found.prices@.len() == best.scope.listed@.len(),
                self.arcs@.len() <= usize::MAX,
                timing.len() == self.arcs@.len(),
                forall|i: usize| #[trigger]
                    best.scope.listed@.contains(i) ==> i < self.arcs@.len(),
                new == patched(timing, best.scope.listed@, best.found.prices@),
                detailed.timing_arcs@.len() == timing.len(),
                detailed.state == old(detailed).state,
                detailed.owners == old(detailed).owners,
                detailed.net_bbox.holds(self.graph, after),
                forall|i: int|
                    0 <= i < timing.len() ==> #[trigger] detailed.timing_arcs@[i]
                        == if best.scope.listed@.take(at as int).contains(i as usize) {
                        new[i]
                    } else {
                        timing[i]
                    },
            decreases best.scope.listed@.len() - at,
        {
            let arc: usize = best.scope.listed[at];
            let price: Option<u128> = best.found.prices[at];
            let ghost listed = best.scope.listed@;
            let ghost before = detailed.timing_arcs@;
            assert(listed.contains(arc));
            detailed.timing_arcs.set(arc, price);
            proof {
                assert(listed.index_of(arc) == at) by {
                    let k = listed.index_of(arc);
                    if k != at {
                        assert(listed[k] != listed[at as int]);
                    }
                }
                assert(new[arc as int] == price);
                assert forall|i: int|
                    0 <= i < timing.len() implies #[trigger] detailed.timing_arcs@[i]
                    == if listed.take(at + 1).contains(i as usize) {
                    new[i]
                } else {
                    timing[i]
                } by {
                    let first = listed.take(at as int);
                    let more = listed.take(at + 1);
                    let id = i as usize;
                    assert(more =~= first.push(arc));
                    if first.contains(id) {
                        let k = first.index_of(id);
                        assert(more[k] == id);
                    }
                    if id == arc {
                        assert(more[at as int] == id);
                    } else {
                        assert(detailed.timing_arcs@[i] == before[i]);
                        if more.contains(id) {
                            let k = more.index_of(id);
                            assert(first[k] == id);
                        }
                    }
                }
            }
            at = at + 1;
        }
        proof {
            assert(best.scope.listed@.take(at as int) =~= best.scope.listed@);
            assert forall|i: int| 0 <= i < timing.len() implies detailed.timing_arcs@[i]
                == new[i] by {}
            assert(detailed.timing_arcs@ =~= new);
        }
        detailed.totals = best.found.totals;
        self.update_owners(
            moving,
            current,
            best.choice,
            best.partner,
            &mut detailed.owners,
            Ghost(placed),
        );
        self.move_units(moving, current, best.choice, best.partner, &mut detailed.state);
        proof {
            self.lemma_trial_stands(placed, moving as int, best.choice as int, best.partner);
            self.lemma_pricing_holds(
                placed,
                timing,
                self.moved_cells(moving as int, best.partner),
                self.moved_row(placed, moving as int, best.choice as int, best.partner),
                new,
            );
        }
    }
}

/// A unit owns the BELs of its row.
proof fn lemma_owns_row(
    unit: crate::units::PlacementUnit,
    placed: Seq<Option<BelId>>,
    bel: BelId,
)
    requires
        forall|k: int|
            0 <= k < unit.cells@.len() ==> placed[(#[trigger] unit.cells@[k]).0 as int] == Some(
                row_of(unit, placed)[k],
            ),
    ensures
        owns(unit, placed, bel) <==> row_of(unit, placed).contains(bel),
{
    if owns(unit, placed, bel) {
        let k = choose|k: int|
            0 <= k < unit.cells@.len() && placed[(#[trigger] unit.cells@[k]).0 as int] == Some(bel);
        assert(row_of(unit, placed)[k] == bel);
    }
    if row_of(unit, placed).contains(bel) {
        let k = row_of(unit, placed).index_of(bel);
        assert(placed[unit.cells@[k].0 as int] == Some(bel));
    }
}

} // verus!
