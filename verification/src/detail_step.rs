//! One unit of a detailed refinement is offered moves and takes the best.

use vstd::prelude::*;

use crate::candidates::can_hold;
use crate::detail::{lemma_row_of, row_of, tracks_owners, DetailedProblem};
use crate::detail_costs::{bbox_total, objective, timing_total};
use crate::detail_state::DetailedState;
use crate::incidents::is_incident;
use crate::legality::legal_row_keeps_placement_legal;
use crate::model::{BelId, CellId, Point};
use crate::ordered::OrderedMap;
use crate::placement_state::{is_taken, row_is_free, PlacementState};
use crate::refiner::PlacementDelayEstimator;
use crate::standing::{stands, stands_on, units_stand};
use crate::targets::detailed_placement_targets;
use crate::units::row_fits;
use crate::usage_model::{cells_in_range, lemma_row_restores, lemma_without_cells, with_row};

verus! {

/// Costs of the arcs under one move, where it has any.
pub type MoveCosts = Option<Seq<Option<u128>>>;

impl<'a, E: PlacementDelayEstimator> DetailedProblem<'a, E> {
    /// Cells that the move places anew.
    pub open spec fn moved_cells(&self, moving: int, partner: Option<usize>) -> Seq<CellId> {
        match partner {
            None => self.units@[moving].cells@,
            Some(other) => self.units@[moving].cells@ + self.units@[other as int].cells@,
        }
    }

    /// Where the move places them.
    pub open spec fn moved_row(
        &self,
        placed: Seq<Option<BelId>>,
        moving: int,
        choice: int,
        partner: Option<usize>,
    ) -> Seq<BelId> {
        let row = self.units@[moving].choices.row(choice);
        match partner {
            None => row,
            Some(_) => row + row_of(self.units@[moving], placed),
        }
    }

    /// The placement after the move.
    pub open spec fn trial(
        &self,
        placed: Seq<Option<BelId>>,
        moving: int,
        choice: int,
        partner: Option<usize>,
    ) -> Seq<Option<BelId>> {
        with_row(
            placed,
            self.moved_cells(moving, partner),
            self.moved_row(placed, moving, choice, partner),
        )
    }

    /// Objective of a placement.
    pub open spec fn value_of(
        &self,
        placed: Seq<Option<BelId>>,
        timing: Seq<Option<u128>>,
        normalizer: (u128, u128),
    ) -> Option<u128> {
        objective(bbox_total(self.graph, placed), timing_total(timing), normalizer)
    }

    /// Objective after the move.
    pub open spec fn score(
        &self,
        placed: Seq<Option<BelId>>,
        moving: int,
        choice: usize,
        partner: Option<usize>,
        costs: MoveCosts,
        normalizer: (u128, u128),
    ) -> Option<u128> {
        match costs {
            Some(new) => self.value_of(
                self.trial(placed, moving, choice as int, partner),
                new,
                normalizer,
            ),
            None => None,
        }
    }

    /// The costs are those of the offered moves.
    pub open spec fn evaluates(
        &self,
        placed: Seq<Option<BelId>>,
        timing: Seq<Option<u128>>,
        moving: int,
        costs: Map<usize, MoveCosts>,
    ) -> bool {
        forall|c: usize, p: Option<usize>| #[trigger]
            self.is_offered(placed, moving, c as int, p) ==> self.is_evaluation(
                timing,
                self.trial(placed, moving, c as int, p),
                self.moved_cells(moving, p),
                costs[c],
            )
    }

    /// The move lowers the objective the most; of equal ones it is the first.
    pub open spec fn is_best(
        &self,
        placed: Seq<Option<BelId>>,
        moving: int,
        costs: Map<usize, MoveCosts>,
        normalizer: (u128, u128),
        bound: u128,
        choice: usize,
        partner: Option<usize>,
    ) -> bool {
        &&& self.is_offered(placed, moving, choice as int, partner)
        &&& self.score(placed, moving, choice, partner, costs[choice], normalizer) matches Some(
            value,
        ) && value < bound && forall|c: usize, p: Option<usize>| #[trigger]
            self.is_offered(placed, moving, c as int, p) ==> self.yields(
                placed,
                moving,
                costs,
                normalizer,
                c,
                p,
                value,
                choice,
            )
    }

    /// The move is no better than one with this value.
    pub open spec fn yields(
        &self,
        placed: Seq<Option<BelId>>,
        moving: int,
        costs: Map<usize, MoveCosts>,
        normalizer: (u128, u128),
        choice: usize,
        partner: Option<usize>,
        value: u128,
        best: usize,
    ) -> bool {
        self.score(placed, moving, choice, partner, costs[choice], normalizer) matches Some(other)
            ==> value < other || (value == other && best <= choice)
    }

    /// No offered move lowers the objective.
    pub open spec fn none_lowers(
        &self,
        placed: Seq<Option<BelId>>,
        moving: int,
        costs: Map<usize, MoveCosts>,
        normalizer: (u128, u128),
        bound: u128,
    ) -> bool {
        forall|c: usize, p: Option<usize>| #[trigger]
            self.is_offered(placed, moving, c as int, p) ==> (self.score(
                placed,
                moving,
                c,
                p,
                costs[c],
                normalizer,
            ) matches Some(value) ==> value >= bound)
    }

    /// The unit takes the best of the offered moves, where one lowers the
    /// objective.
    pub open spec fn is_step(
        &self,
        placed: Seq<Option<BelId>>,
        timing: Seq<Option<u128>>,
        moving: int,
        normalizer: (u128, u128),
        after: Seq<Option<BelId>>,
        after_timing: Seq<Option<u128>>,
        moved: bool,
    ) -> bool {
        if self.units@[moving].choices.count() <= 1 {
            !moved && after == placed && after_timing == timing
        } else {
            exists|costs: Map<usize, MoveCosts>|
                #[trigger] self.evaluates(placed, timing, moving, costs)
                    && self.follows_costs(
                    placed,
                    timing,
                    moving,
                    normalizer,
                    costs,
                    after,
                    after_timing,
                    moved,
                )
        }
    }

    /// What the costs of the moves decide.
    pub open spec fn follows_costs(
        &self,
        placed: Seq<Option<BelId>>,
        timing: Seq<Option<u128>>,
        moving: int,
        normalizer: (u128, u128),
        costs: Map<usize, MoveCosts>,
        after: Seq<Option<BelId>>,
        after_timing: Seq<Option<u128>>,
        moved: bool,
    ) -> bool {
        let bound = self.value_of(placed, timing, normalizer)->0;
        if moved {
            exists|choice: usize, partner: Option<usize>|
                #[trigger] self.is_best(
                    placed,
                    moving,
                    costs,
                    normalizer,
                    bound,
                    choice,
                    partner,
                ) && after == self.trial(placed, moving, choice as int, partner)
                    && costs[choice] == Some(after_timing)
        } else {
            self.none_lowers(placed, moving, costs, normalizer, bound) && after == placed
                && after_timing == timing
        }
    }

    /// A move that is taken strictly lowers the objective.
    pub proof fn taken_move_lowers_objective(
        &self,
        placed: Seq<Option<BelId>>,
        timing: Seq<Option<u128>>,
        moving: int,
        normalizer: (u128, u128),
        after: Seq<Option<BelId>>,
        after_timing: Seq<Option<u128>>,
    )
        requires
            self.is_step(placed, timing, moving, normalizer, after, after_timing, true),
            self.value_of(placed, timing, normalizer) is Some,
        ensures
            self.value_of(after, after_timing, normalizer) is Some,
            self.value_of(after, after_timing, normalizer)->0 < self.value_of(
                placed,
                timing,
                normalizer,
            )->0,
    {
        let costs = choose|costs: Map<usize, MoveCosts>|
            #[trigger] self.evaluates(placed, timing, moving, costs) && self.follows_costs(
                placed,
                timing,
                moving,
                normalizer,
                costs,
                after,
                after_timing,
                true,
            );
    }

    /// Facts about a unit that stands.
    pub proof fn lemma_unit_stands(&self, placed: Seq<Option<BelId>>, unit: int)
        requires
            self.wf(),
            placed.len() == self.graph.design.cells@.len(),
            units_stand(self.units@, placed),
            0 <= unit < self.units@.len(),
        ensures
            cells_in_range(self.units@[unit].cells@, placed.len() as int),
            self.units@[unit].cells@.no_duplicates(),
            self.units@[unit].cells@.len() > 0,
            row_of(self.units@[unit], placed).len() == self.units@[unit].cells@.len(),
            row_fits(
                self.graph,
                self.constraints,
                self.units@[unit].cells@,
                row_of(self.units@[unit], placed),
            ),
            forall|k: int|
                0 <= k < self.units@[unit].cells@.len() ==> placed[(
                #[trigger] self.units@[unit].cells@[k]).0 as int] == Some(
                    row_of(self.units@[unit], placed)[k],
                ),
            exists|i: int|
                0 <= i < self.units@[unit].choices.count() && #[trigger] self.units@[unit].choices.row(
                    i,
                ) == row_of(self.units@[unit], placed),
            forall|k: int|
                0 <= k < row_of(self.units@[unit], placed).len() ==> (#[trigger] row_of(
                    self.units@[unit],
                    placed,
                )[k]).0 < self.graph.device.bels@.len(),
    {
        let it = self.units@[unit];
        assert(it.wf(self.graph, self.constraints));
        assert(stands(self.units@[unit], placed));
        let i = choose|i: int| #[trigger] stands_on(it, placed, i);
        assert(row_fits(self.graph, self.constraints, it.cells@, it.choices.row(i)));
        lemma_row_of(it, placed, i);
        assert(it.choices.row(i) == row_of(it, placed));
        assert forall|k: int| 0 <= k < it.cells@.len() implies placed[(
        #[trigger] it.cells@[k]).0 as int] == Some(row_of(it, placed)[k]) by {
            assert(placed[it.cells@[k].0 as int] == Some(it.choices.row(i)[k]));
        }
        assert forall|k: int| 0 <= k < row_of(it, placed).len() implies (#[trigger] row_of(
            it,
            placed,
        )[k]).0 < self.graph.device.bels@.len() by {
            assert(can_hold(self.graph, self.constraints, it.cells@[k], row_of(it, placed)[k]));
        }
    }

    /// Facts about the cells that an offered move places anew.
    pub proof fn lemma_moved(
        &self,
        placed: Seq<Option<BelId>>,
        moving: int,
        choice: int,
        partner: Option<usize>,
    )
        requires
            self.wf(),
            placed.len() == self.graph.design.cells@.len(),
            units_stand(self.units@, placed),
            0 <= moving < self.units@.len(),
            0 <= choice < self.units@[moving].choices.count(),
            self.is_destination(
                placed,
                moving,
                self.units@[moving].choices.row(choice),
                partner,
            ),
        ensures
            ({
                let cells = self.moved_cells(moving, partner);
                let row = self.moved_row(placed, moving, choice, partner);
                &&& cells.len() == row.len()
                &&& cells.no_duplicates()
                &&& cells_in_range(cells, placed.len() as int)
                &&& forall|k: int|
                    0 <= k < row.len() ==> (#[trigger] row[k]).0 < self.graph.device.bels@.len()
                &&& row_fits(
                    self.graph,
                    self.constraints,
                    self.units@[moving].cells@,
                    self.units@[moving].choices.row(choice),
                )
                &&& forall|c: CellId| #[trigger]
                    cells.contains(c) <==> self.units@[moving].cells@.contains(c) || (
                    partner matches Some(other) && self.units@[other as int].cells@.contains(c))
            }),
    {
        let unit = self.units@[moving];
        let cells = self.moved_cells(moving, partner);
        let row = self.moved_row(placed, moving, choice, partner);
        self.lemma_unit_stands(placed, moving);
        assert(unit.wf(self.graph, self.constraints));
        assert(row_fits(self.graph, self.constraints, unit.cells@, unit.choices.row(choice)));
        assert forall|k: int| 0 <= k < unit.choices.row(choice).len() implies (
        #[trigger] unit.choices.row(choice)[k]).0 < self.graph.device.bels@.len() by {
            assert(can_hold(
                self.graph,
                self.constraints,
                unit.cells@[k],
                unit.choices.row(choice)[k],
            ));
        }
        if let Some(other) = partner {
            let with = self.units@[other as int];
            self.lemma_unit_stands(placed, other as int);
            assert(with.cells@.len() == unit.cells@.len());
            assert forall|i: int, j: int| 0 <= i < cells.len() && 0 <= j < cells.len() && i
                != j implies cells[i] != cells[j] by {
                let count = unit.cells@.len() as int;
                if i < count && j >= count {
                    assert(self.units@[moving].cells@[i] == cells[i]);
                    assert(self.units@[other as int].cells@[j - count] == cells[j]);
                } else if i >= count && j < count {
                    assert(self.units@[moving].cells@[j] == cells[j]);
                    assert(self.units@[other as int].cells@[i - count] == cells[i]);
                }
            }
            assert forall|c: CellId| #[trigger]
                cells.contains(c) <==> unit.cells@.contains(c) || with.cells@.contains(c) by {
                if unit.cells@.contains(c) {
                    let k = unit.cells@.index_of(c);
                    assert(cells[k] == c);
                }
                if with.cells@.contains(c) {
                    let k = with.cells@.index_of(c);
                    assert(cells[unit.cells@.len() + k] == c);
                }
                if cells.contains(c) {
                    let k = cells.index_of(c);
                    if k < unit.cells@.len() {
                        assert(unit.cells@[k] == c);
                    } else {
                        assert(with.cells@[k - unit.cells@.len()] == c);
                    }
                }
            }
            assert forall|k: int| 0 <= k < cells.len() implies (#[trigger] cells[k]).0
                < placed.len() by {
                if k < unit.cells@.len() {
                    assert(unit.cells@[k].0 < placed.len());
                } else {
                    assert(with.cells@[k - unit.cells@.len()].0 < placed.len());
                }
            }
            assert forall|k: int| 0 <= k < row.len() implies (#[trigger] row[k]).0
                < self.graph.device.bels@.len() by {
                if k >= unit.cells@.len() {
                    assert(row_of(unit, placed)[k - unit.cells@.len()].0
                        < self.graph.device.bels@.len());
                } else {
                    assert(unit.choices.row(choice)[k].0 < self.graph.device.bels@.len());
                }
            }
        }
    }

    /// Moves that the unit is offered, by their choices.
    pub(crate) fn offered_moves(
        &self,
        moving: usize,
        current: &Vec<BelId>,
        detailed: &mut DetailedState,
    ) -> (result: OrderedMap<usize, Option<usize>>)
        requires
            self.wf(),
            old(detailed).holds(self),
            moving < self.units@.len(),
            current@ == row_of(self.units@[moving as int], old(detailed).state.placed@),
        ensures
            final(detailed).holds(self),
            final(detailed).state.placed@ == old(detailed).state.placed@,
            final(detailed).timing_arcs == old(detailed).timing_arcs,
            final(detailed).totals == old(detailed).totals,
            result.wf(),
            forall|c: usize, p: Option<usize>| #[trigger]
                self.is_offered(old(detailed).state.placed@, moving as int, c as int, p) ==> (
                result@.contains_key(c) && result@[c] == p),
            forall|c: usize| #[trigger]
                result@.contains_key(c) ==> self.is_offered(
                    old(detailed).state.placed@,
                    moving as int,
                    c as int,
                    result@[c],
                ),
    {
        let unit = &self.units[moving];
        let ghost placed = detailed.state.placed@;
        proof {
            detailed.lemma_complete(self);
            self.lemma_unit_stands(placed, moving as int);
            assert(is_incident(
                self.graph,
                self.units@[moving as int].cells@,
                self.arcs@,
                self.incidents@[moving as int],
            ));
            let incident = self.incidents@[moving as int];
            assert forall|i: int| 0 <= i < incident.nets@.len() implies (
            #[trigger] incident.nets@[i]).0 < self.graph.design.nets@.len() by {
                assert(incident.nets@.contains(incident.nets@[i]));
            }
            assert forall|i: int|
                0 <= i < incident.timing_arcs@.len() implies #[trigger] incident.timing_arcs@[i]
                < self.arcs@.len() by {
                assert(incident.timing_arcs@.contains(incident.timing_arcs@[i]));
            }
        }
        let targets = detailed_placement_targets(
            &self.graph,
            unit,
            &self.incidents[moving].nets,
            &self.arcs,
            &self.incidents[moving].timing_arcs,
            &detailed.state.placed,
        );
        detailed.state.take_row(&self.graph, self.constraints, &unit.cells, current);
        let ghost lifted = detailed.state.placed@;
        proof {
            lemma_without_cells(placed, unit.cells@);
            lemma_row_restores(placed, unit.cells@, current@);
            legal_row_keeps_placement_legal(
                self.graph,
                self.constraints,
                lifted,
                unit.cells@,
                current@,
            );
        }
        let mut found: OrderedMap<usize, Option<usize>> = OrderedMap::new();
        let mut at: usize = 0;
        let ghost listed = targets.ordered();
        while at < targets.len()
            invariant
                at <= listed.len(),
                listed == targets.ordered(),
                targets.wf(),
                self.wf(),
                moving < self.units@.len(),
                forall|p: Point| #[trigger]
                    targets@.contains(p) <==> self.pulls(placed, moving as int, p),
                forall|p: Point| #[trigger] targets@.contains(p) ==> self.graph.device.holds(p),
                self.is_lifted(placed, moving as int, detailed.state),
                current@ == row_of(self.units@[moving as int], placed),
                detailed.owners@.len() == self.graph.device.bels@.len(),
                tracks_owners(self.units@, placed, detailed.owners@),
                detailed.owners == old(detailed).owners,
                detailed.net_bbox == old(detailed).net_bbox,
                detailed.timing_arcs == old(detailed).timing_arcs,
                detailed.totals == old(detailed).totals,
                found.wf(),
                self.names_moves(placed, moving as int, found@),
                forall|c: usize| #[trigger]
                    found@.contains_key(c) <==> self.offered_before(
                        placed,
                        moving as int,
                        listed,
                        at as int,
                        c,
                    ),
            decreases listed.len() - at,
        {
            let target = targets.at(at);
            assert(targets@.contains(target));
            let ghost before = found@;
            self.visit_spatial_choices_on_nearest_usable_ring(
                moving,
                current,
                target,
                &mut detailed.state,
                &detailed.owners,
                &mut found,
                Ghost(placed),
            );
            proof {
                assert forall|c: usize| #[trigger]
                    found@.contains_key(c) <==> self.offered_before(
                        placed,
                        moving as int,
                        listed,
                        at + 1,
                        c,
                    ) by {
                    assert(before.contains_key(c) <==> self.offered_before(
                        placed,
                        moving as int,
                        listed,
                        at as int,
                        c,
                    ));
                    if self.offered_before(placed, moving as int, listed, at as int, c) {
                        let (k, p) = choose|k: int, p: Option<usize>|
                            0 <= k < at && #[trigger] self.is_nearest_usable(
                                placed,
                                moving as int,
                                listed[k],
                                c as int,
                                p,
                            );
                        assert(self.is_nearest_usable(
                            placed,
                            moving as int,
                            listed[k],
                            c as int,
                            p,
                        ));
                    }
                    if exists|p: Option<usize>| #[trigger]
                        self.is_nearest_usable(placed, moving as int, target, c as int, p) {
                        let p = choose|p: Option<usize>|
                            #[trigger] self.is_nearest_usable(
                                placed,
                                moving as int,
                                target,
                                c as int,
                                p,
                            );
                        assert(self.is_nearest_usable(
                            placed,
                            moving as int,
                            listed[at as int],
                            c as int,
                            p,
                        ));
                    }
                    if self.offered_before(placed, moving as int, listed, at + 1, c) {
                        let (k, p) = choose|k: int, p: Option<usize>|
                            0 <= k < at + 1 && #[trigger] self.is_nearest_usable(
                                placed,
                                moving as int,
                                listed[k],
                                c as int,
                                p,
                            );
                        if k < at {
                            assert(self.offered_before(
                                placed,
                                moving as int,
                                listed,
                                at as int,
                                c,
                            ));
                        }
                    }
                }
            }
            at = at + 1;
        }
        proof {
            assert(row_is_free(detailed.state.occupied@, current@)) by {
                self.lemma_own_row_free(placed, moving as int, detailed.state);
            }
        }
        detailed.state.put_row(&self.graph, self.constraints, &unit.cells, current);
        proof {
            assert(detailed.state.placed@ == placed);
            assert forall|c: usize, p: Option<usize>| #[trigger]
                self.is_offered(placed, moving as int, c as int, p) implies (found@.contains_key(c)
                && found@[c] == p) by {
                let target = choose|target: Point|
                    self.pulls(placed, moving as int, target)
                        && #[trigger] self.is_nearest_usable(
                        placed,
                        moving as int,
                        target,
                        c as int,
                        p,
                    );
                assert(targets@.contains(target));
                targets.membership(target);
                let k = listed.index_of(target);
                assert(self.is_nearest_usable(placed, moving as int, listed[k], c as int, p));
                assert(self.offered_before(
                    placed,
                    moving as int,
                    listed,
                    listed.len() as int,
                    c,
                ));
                assert(found@.contains_key(c));
                self.lemma_one_partner(
                    placed,
                    moving as int,
                    unit.choices.row(c as int),
                    p,
                    found@[c],
                );
            }
            assert forall|c: usize| #[trigger] found@.contains_key(c) implies self.is_offered(
                placed,
                moving as int,
                c as int,
                found@[c],
            ) by {
                let (k, p) = choose|k: int, p: Option<usize>|
                    0 <= k < listed.len() && #[trigger] self.is_nearest_usable(
                        placed,
                        moving as int,
                        listed[k],
                        c as int,
                        p,
                    );
                targets.membership(listed[k]);
                assert(targets@.contains(listed[k]));
                assert(self.is_nearest_usable(placed, moving as int, listed[k], c as int, p));
                assert(self.is_offered(placed, moving as int, c as int, p));
                self.lemma_one_partner(
                    placed,
                    moving as int,
                    unit.choices.row(c as int),
                    p,
                    found@[c],
                );
            }
        }
        found
    }

    /// The choice is nearest to one of the first targets.
    spec fn offered_before(
        &self,
        placed: Seq<Option<BelId>>,
        moving: int,
        targets: Seq<Point>,
        count: int,
        choice: usize,
    ) -> bool {
        exists|k: int, p: Option<usize>|
            0 <= k < count && #[trigger] self.is_nearest_usable(
                placed,
                moving,
                targets[k],
                choice as int,
                p,
            )
    }

    /// Where a unit stood is free once it is taken out.
    proof fn lemma_own_row_free(
        &self,
        placed: Seq<Option<BelId>>,
        moving: int,
        state: PlacementState,
    )
        requires
            self.wf(),
            self.is_lifted(placed, moving, state),
        ensures
            row_is_free(state.occupied@, row_of(self.units@[moving], placed)),
    {
        let unit = self.units@[moving];
        let row = row_of(unit, placed);
        self.lemma_unit_stands(placed, moving);
        lemma_without_cells(placed, unit.cells@);
        assert forall|k: int| 0 <= k < row.len() implies (#[trigger] row[k]).0
            < state.occupied@.len() && !state.occupied@[row[k].0 as int] by {
            let bel = row[k];
            assert(row_of(unit, placed)[k].0 < self.graph.device.bels@.len());
            if is_taken(state.placed@, bel) {
                let c = choose|c: int|
                    0 <= c < state.placed@.len() && #[trigger] state.placed@[c] == Some(bel);
                let own = unit.cells@[k].0 as int;
                assert(placed[unit.cells@[k].0 as int] == Some(bel));
                assert(state.placed@[unit.cells@[k].0 as int] is None);
                assert(state.placed.len() == state.placed@.len());
                let cell = CellId(c as usize);
                assert(!unit.cells@.contains(cell)) by {
                    if unit.cells@.contains(cell) {
                        let l = unit.cells@.index_of(cell);
                        assert(state.placed@[unit.cells@[l].0 as int] is None);
                    }
                }
                assert(state.placed@[c] == placed[c]);
                if c < own {
                    assert(placed[c] != placed[own]);
                } else {
                    assert(own < c);
                    assert(placed[own] != placed[c]);
                }
            }
            assert(state.occupied@[bel.0 as int] == is_taken(state.placed@, bel));
        }
    }
}

} // verus!
