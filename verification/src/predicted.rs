//! Refinement of a placement against wirelength and predicted timing.


use vstd::prelude::*;

use crate::bbox_cache::{DetailedBoundingBoxCache, DetailedBoundingBoxDeltaWorkspace};
use crate::candidates::lemma_valid_in_range;
use crate::detail::{owns, row_of, tracks_owners, unowned, DetailedProblem};
use crate::detail_costs::{
    arc_values, bbox_total, candidate_arc_timing_cost, detailed_placement_objective,
    lemma_bbox_fits, objective, prices_arc, spans, timing_total, total,
};
use crate::detail_state::DetailedState;
use crate::device::UnifiedGraph;
use crate::error::PnrError;
use crate::finish::all_placed;
use crate::families::group_families;
use crate::incidents::{are_timed_arcs, detailed_placement_incidents, timed_arcs};
use crate::model::{BelId, CellId, Connection, NetId};
use crate::neighbors::{are_neighbors, placement_neighbors, PlacementNeighbor, PlacementWeights};
use crate::ordered::OrderedMap;
use crate::place::by_sink;
use crate::placement::Placement;
use crate::placement_state::PlacementState;
use crate::refine::current_row;
use crate::refine_passes::{
    count_elsewhere, is_refine_order, lemma_moves_made, lemma_order_names_units, moves_made, refinement_order, units_elsewhere, RefineOrder,
};
use crate::refiner::{PlacementDelayEstimator, PlacementRefiner};
use crate::standing::{finish_standing, is_placement_of, units_cover, units_stand};
use crate::start::{starts_legal, validate_refinement_start};
use crate::usage_model::{cells_in_range, with_row};

verus! {

/// How often the units are offered moves.
#[derive(Clone, Copy, Debug, PartialEq, Eq, Structural)]
pub enum PredictedPlacementPasses {
    /// Once.
    One,
    /// Until nothing moves.
    UntilFixedPoint,
}

/// A placement with the costs of its critical arcs.
pub type DetailPoint = (Seq<Option<BelId>>, Seq<Option<u128>>);

/// One pass: the points that its offers lead through, and whether each offer
/// made a move.
pub type DetailPass = (Seq<DetailPoint>, Seq<bool>);

impl<'a, E: PlacementDelayEstimator> DetailedProblem<'a, E> {
    /// Every arc has its cost, or has none.
    pub open spec fn are_first_costs(
        &self,
        placed: Seq<Option<BelId>>,
        timing: Seq<Option<u128>>,
    ) -> bool {
        &&& timing.len() == self.arcs@.len()
        &&& forall|i: int|
            0 <= i < timing.len() ==> prices_arc(
                self.graph,
                self.constraints,
                self.estimator,
                self.arcs@[i],
                placed,
                #[trigger] timing[i],
            )
    }

    /// One offer of the pass, to the unit whose turn it is.
    pub open spec fn is_detail_offer(
        &self,
        order: Seq<RefineOrder>,
        normalizer: (u128, u128),
        pass: DetailPass,
        at: int,
    ) -> bool {
        self.is_step(
            pass.0[at].0,
            pass.0[at].1,
            order[at].index as int,
            normalizer,
            pass.0[at + 1].0,
            pass.0[at + 1].1,
            pass.1[at],
        )
    }

    /// The offers of a pass so far.
    pub open spec fn is_detail_pass(
        &self,
        order: Seq<RefineOrder>,
        normalizer: (u128, u128),
        pass: DetailPass,
    ) -> bool {
        &&& pass.0.len() == pass.1.len() + 1
        &&& pass.1.len() <= order.len()
        &&& forall|i: int|
            0 <= i < pass.1.len() ==> #[trigger] self.is_detail_offer(order, normalizer, pass, i)
    }

    /// Passes that offer every unit a move in turn; after all but the last,
    /// refinement goes on.
    pub open spec fn are_detail_passes(
        &self,
        order: Seq<RefineOrder>,
        normalizer: (u128, u128),
        passes: Seq<DetailPass>,
    ) -> bool {
        &&& forall|i: int|
            0 <= i < passes.len() ==> self.is_detail_pass(
                order,
                normalizer,
                #[trigger] passes[i],
            ) && passes[i].1.len() == order.len()
        &&& forall|i: int|
            0 <= i < passes.len() - 1 ==> moves_made((#[trigger] passes[i]).1) > 0
                && passes[i].0.last() == passes[i + 1].0[0]
    }

    /// The later point comes from the earlier by passes over all units, until
    /// a pass moves nothing, or by one pass. The count is that of the units that
    /// stand elsewhere then.
    pub open spec fn is_run(
        &self,
        order: Seq<RefineOrder>,
        normalizer: (u128, u128),
        passes: PredictedPlacementPasses,
        before: DetailPoint,
        after: DetailPoint,
        moved: usize,
    ) -> bool {
        exists|record: Seq<DetailPass>|
            {
                &&& #[trigger] self.are_detail_passes(order, normalizer, record)
                &&& record.len() > 0
                &&& record[0].0[0] == before
                &&& record.last().0.last() == after
                &&& passes == PredictedPlacementPasses::One ==> record.len() == 1
                &&& passes == PredictedPlacementPasses::UntilFixedPoint ==> moves_made(
                    record.last().1,
                ) == 0
                &&& moved == units_elsewhere(self.units@, before.0, after.0).len()
            }
    }

    /// One more offer makes a longer pass.
    proof fn lemma_detail_grows(
        &self,
        order: Seq<RefineOrder>,
        normalizer: (u128, u128),
        pass: DetailPass,
        next: DetailPoint,
        moved: bool,
    )
        requires
            self.is_detail_pass(order, normalizer, pass),
            pass.1.len() < order.len(),
            self.is_step(
                pass.0.last().0,
                pass.0.last().1,
                order[pass.1.len() as int].index as int,
                normalizer,
                next.0,
                next.1,
                moved,
            ),
        ensures
            self.is_detail_pass(order, normalizer, (pass.0.push(next), pass.1.push(moved))),
            moves_made(pass.1.push(moved)) == moves_made(pass.1) + if moved {
                1int
            } else {
                0int
            },
    {
        let longer = (pass.0.push(next), pass.1.push(moved));
        assert(longer.1.drop_last() =~= pass.1);
        assert forall|i: int| 0 <= i < longer.1.len() implies #[trigger] self.is_detail_offer(
            order,
            normalizer,
            longer,
            i,
        ) by {
            if i < pass.1.len() {
                assert(self.is_detail_offer(order, normalizer, pass, i));
            }
        }
    }

    /// One more pass makes a longer run.
    proof fn lemma_run_grows(
        &self,
        order: Seq<RefineOrder>,
        normalizer: (u128, u128),
        passes: Seq<DetailPass>,
        next: DetailPass,
    )
        requires
            self.are_detail_passes(order, normalizer, passes),
            self.is_detail_pass(order, normalizer, next),
            next.1.len() == order.len(),
            passes.len() > 0 ==> moves_made(passes.last().1) > 0 && passes.last().0.last()
                == next.0[0],
        ensures
            self.are_detail_passes(order, normalizer, passes.push(next)),
    {
        let longer = passes.push(next);
        assert(longer.drop_last() =~= passes);
        assert forall|i: int| 0 <= i < longer.len() implies self.is_detail_pass(
            order,
            normalizer,
            #[trigger] longer[i],
        ) && longer[i].1.len() == order.len() by {
            if i < passes.len() {
                assert(longer[i] == passes[i]);
            }
        }
        assert forall|i: int| 0 <= i < longer.len() - 1 implies moves_made(
            (#[trigger] longer[i]).1,
        ) > 0 && longer[i].0.last() == longer[i + 1].0[0] by {
            assert(longer[i] == passes[i]);
            if i < passes.len() - 1 {
                assert(longer[i + 1] == passes[i + 1]);
            }
        }
    }

    /// Offers one unit moves, and takes the best.
    fn refine_detail(
        &self,
        moving: usize,
        detailed: &mut DetailedState,
        workspace: &mut DetailedBoundingBoxDeltaWorkspace,
        normalizer: (u128, u128),
        bound: u128,
    ) -> (result: Option<u128>)
        requires
            self.wf(),
            moving < self.units@.len(),
            old(detailed).holds(self),
            old(workspace).wf(self.graph.design.nets@.len() as int),
            self.value_of(
                old(detailed).state.placed@,
                old(detailed).timing_arcs@,
                normalizer,
            ) == Some(bound),
        ensures
            final(detailed).holds(self),
            final(workspace).wf(self.graph.design.nets@.len() as int),
            self.is_step(
                old(detailed).state.placed@,
                old(detailed).timing_arcs@,
                moving as int,
                normalizer,
                final(detailed).state.placed@,
                final(detailed).timing_arcs@,
                result is Some,
            ),
            match result {
                Some(value) => value < bound && self.value_of(
                    final(detailed).state.placed@,
                    final(detailed).timing_arcs@,
                    normalizer,
                ) == Some(value),
                None => final(detailed).state.placed@ == old(detailed).state.placed@
                    && final(detailed).timing_arcs@ == old(detailed).timing_arcs@,
            },
    {
        if self.units[moving].choices.len() <= 1 {
            return None;
        }
        let ghost placed = detailed.state.placed@;
        let ghost timing = detailed.timing_arcs@;
        proof {
            detailed.lemma_complete(self);
            self.lemma_unit_stands(placed, moving as int);
            assert forall|k: int| 0 <= k < self.units@[moving as int].cells@.len() implies (
            #[trigger] self.units@[moving as int].cells@[k]).0 < placed.len()
                && placed[self.units@[moving as int].cells@[k].0 as int] is Some by {}
        }
        let current = current_row(&self.units[moving], &detailed.state.placed);
        proof {
            assert forall|k: int| 0 <= k < current@.len() implies current@[k] == row_of(
                self.units@[moving as int],
                placed,
            )[k] by {
                assert(placed[self.units@[moving as int].cells@[k].0 as int] == Some(current@[k]));
            }
            assert(current@ =~= row_of(self.units@[moving as int], placed));
        }
        let moves = self.offered_moves(moving, &current, detailed);
        let (best, costs) = self.pick_best(
            moving,
            &current,
            &moves,
            detailed,
            workspace,
            normalizer,
            bound,
        );
        match best {
            None => {
                assert(self.follows_costs(
                    placed,
                    timing,
                    moving as int,
                    normalizer,
                    costs@,
                    placed,
                    timing,
                    false,
                ));
                None
            },
            Some(best) => {
                let value: u128 = best.value;
                let ghost choice = best.choice;
                let ghost partner = best.partner;
                proof {
                    assert(self.is_best(
                        placed,
                        moving as int,
                        costs@,
                        normalizer,
                        bound,
                        choice,
                        partner,
                    ));
                    assert(self.is_offered(placed, moving as int, choice as int, partner));
                }
                self.accept(
                    moving,
                    &current,
                    best,
                    detailed,
                    workspace,
                    normalizer,
                    Ghost(costs@),
                );
                proof {
                    assert(detailed.state.placed@ == self.trial(
                        placed,
                        moving as int,
                        choice as int,
                        partner,
                    ));
                    assert(costs@[choice] == Some(detailed.timing_arcs@));
                    assert(bound == self.value_of(placed, timing, normalizer)->0);
                    assert(self.is_best(
                        placed,
                        moving as int,
                        costs@,
                        normalizer,
                        self.value_of(placed, timing, normalizer)->0,
                        choice,
                        partner,
                    ));
                    assert(self.follows_costs(
                        placed,
                        timing,
                        moving as int,
                        normalizer,
                        costs@,
                        detailed.state.placed@,
                        detailed.timing_arcs@,
                        true,
                    ));
                }
                Some(value)
            },
        }
    }

    /// Refines a placement by passes over all units. Returns the number of units
    /// that stand elsewhere then.
    ///
    /// Each taken move strictly lowers one and the same objective.
    pub(crate) fn refine_predicted_placement(
        &self,
        order: &Vec<RefineOrder>,
        detailed: &mut DetailedState,
        normalizer: (u128, u128),
        start_value: u128,
        passes: PredictedPlacementPasses,
        Ghost(neighbors): Ghost<Seq<Vec<PlacementNeighbor>>>,
    ) -> (result: usize)
        requires
            self.wf(),
            old(detailed).holds(self),
            is_refine_order(self.units@, neighbors, order@),
            self.value_of(
                old(detailed).state.placed@,
                old(detailed).timing_arcs@,
                normalizer,
            ) == Some(start_value),
        ensures
            final(detailed).holds(self),
            self.is_run(
                order@,
                normalizer,
                passes,
                (old(detailed).state.placed@, old(detailed).timing_arcs@),
                (final(detailed).state.placed@, final(detailed).timing_arcs@),
                result,
            ),
    {
        let mut workspace = DetailedBoundingBoxDeltaWorkspace::new(
            self.graph.design().nets.len(),
        );
        let mut value: u128 = start_value;
        let start: Vec<Option<BelId>> = crate::ordered::copy_keys(&detailed.state.placed);
        let mut more = true;
        let ghost mut record: Seq<DetailPass> = Seq::empty();
        while more
            invariant
                self.wf(),
                detailed.holds(self),
                workspace.wf(self.graph.design.nets@.len() as int),
                is_refine_order(self.units@, neighbors, order@),
                self.value_of(
                    detailed.state.placed@,
                    detailed.timing_arcs@,
                    normalizer,
                ) == Some(value),
                self.are_detail_passes(order@, normalizer, record),
                start@ == old(detailed).state.placed@,
                record.len() == 0 ==> more && detailed.state.placed@ == old(
                    detailed,
                ).state.placed@ && detailed.timing_arcs@ == old(detailed).timing_arcs@,
                record.len() > 0 ==> {
                    &&& record[0].0[0] == (
                        old(detailed).state.placed@,
                        old(detailed).timing_arcs@,
                    )
                    &&& record.last().0.last() == (
                        detailed.state.placed@,
                        detailed.timing_arcs@,
                    )
                    &&& more <==> (passes == PredictedPlacementPasses::UntilFixedPoint
                        && moves_made(record.last().1) > 0)
                    &&& passes == PredictedPlacementPasses::One ==> record.len() == 1
                },
            decreases (if more { 1int } else { 0int }), value,
        {
            let ghost begin = value;
            let ghost mut pass: DetailPass = (
                seq![(detailed.state.placed@, detailed.timing_arcs@)],
                Seq::empty(),
            );
            let mut moved: usize = 0;
            let mut at: usize = 0;
            while at < order.len()
                invariant
                    at <= order@.len(),
                    self.wf(),
                    detailed.holds(self),
                    workspace.wf(self.graph.design.nets@.len() as int),
                    is_refine_order(self.units@, neighbors, order@),
                    self.value_of(
                        detailed.state.placed@,
                        detailed.timing_arcs@,
                        normalizer,
                    ) == Some(value),
                    self.is_detail_pass(order@, normalizer, pass),
                    pass.1.len() == at,
                    pass.0.last() == (detailed.state.placed@, detailed.timing_arcs@),
                    record.len() == 0 ==> pass.0[0] == (
                        old(detailed).state.placed@,
                        old(detailed).timing_arcs@,
                    ),
                    record.len() > 0 ==> pass.0[0] == record.last().0.last(),
                    moved == moves_made(pass.1),
                    moved <= at,
                    value <= begin,
                    moved > 0 ==> value < begin,
                decreases order@.len() - at,
            {
                let index: usize = order[at].index;
                proof {
                    assert(self.units.len() == self.units@.len());
                    lemma_order_names_units(self.units@, neighbors, order@, at as int);
                }
                let step = self.refine_detail(
                    index,
                    detailed,
                    &mut workspace,
                    normalizer,
                    value,
                );
                proof {
                    self.lemma_detail_grows(
                        order@,
                        normalizer,
                        pass,
                        (detailed.state.placed@, detailed.timing_arcs@),
                        step is Some,
                    );
                    pass = (
                        pass.0.push((detailed.state.placed@, detailed.timing_arcs@)),
                        pass.1.push(step is Some),
                    );
                }
                if let Some(lower) = step {
                    value = lower;
                    moved = moved + 1;
                }
                at = at + 1;
            }
            proof {
                self.lemma_run_grows(order@, normalizer, record, pass);
                record = record.push(pass);
            }
            more = moved > 0 && passes == PredictedPlacementPasses::UntilFixedPoint;
        }
        proof {
            lemma_moves_made(record.last().1);
            assert(self.are_detail_passes(order@, normalizer, record));
            assert forall|u: int| 0 <= u < self.units@.len() implies cells_in_range(
                (#[trigger] self.units@[u]).cells@,
                start@.len() as int,
            ) && cells_in_range(
                self.units@[u].cells@,
                detailed.state.placed@.len() as int,
            ) by {
                assert(self.units@[u].wf(self.graph, self.constraints));
            }
        }
        count_elsewhere(self.units, &start, &detailed.state.placed)
    }
}

/// Names the unit on each BEL.
fn find_owners<E: PlacementDelayEstimator>(
    problem: &DetailedProblem<'_, E>,
    placed: &Vec<Option<BelId>>,
) -> (result: Vec<Option<usize>>)
    requires
        problem.wf(),
        placed@.len() == problem.graph.design.cells@.len(),
        units_stand(problem.units@, placed@),
        crate::row_cost::placed_on_device(problem.graph.device, placed@),
    ensures
        result@.len() == problem.graph.device.bels@.len(),
        tracks_owners(problem.units@, placed@, result@),
{
    let device = problem.graph.device();
    let mut owners: Vec<Option<usize>> = Vec::new();
    let mut bel: usize = 0;
    while bel < device.bels.len()
        invariant
            bel <= device.bels@.len(),
            owners@.len() == bel,
            forall|b: int| 0 <= b < bel ==> #[trigger] owners@[b] is None,
        decreases device.bels@.len() - bel,
    {
        owners.push(None);
        bel = bel + 1;
    }
    let mut index: usize = 0;
    while index < problem.units.len()
        invariant
            index <= problem.units@.len(),
            problem.wf(),
            placed@.len() == problem.graph.design.cells@.len(),
            units_stand(problem.units@, placed@),
            crate::row_cost::placed_on_device(problem.graph.device, placed@),
            owners@.len() == problem.graph.device.bels@.len(),
            forall|b: BelId|
                #![trigger owners@[b.0 as int]]
                b.0 < owners@.len() ==> match owners@[b.0 as int] {
                    Some(u) => u < problem.units@.len() && owns(
                        problem.units@[u as int],
                        placed@,
                        b,
                    ),
                    None => unowned(problem.units@.take(index as int), placed@, b),
                },
        decreases problem.units@.len() - index,
    {
        let unit = &problem.units[index];
        proof {
            problem.lemma_unit_stands(placed@, index as int);
        }
        let mut at: usize = 0;
        while at < unit.cells.len()
            invariant
                at <= unit.cells@.len(),
                index < problem.units@.len(),
                *unit == problem.units@[index as int],
                placed@.len() == problem.graph.design.cells@.len(),
                cells_in_range(unit.cells@, placed@.len() as int),
                crate::row_cost::placed_on_device(problem.graph.device, placed@),
                owners@.len() == problem.graph.device.bels@.len(),
                forall|b: BelId|
                    #![trigger owners@[b.0 as int]]
                    b.0 < owners@.len() ==> match owners@[b.0 as int] {
                        Some(u) => u < problem.units@.len() && owns(
                            problem.units@[u as int],
                            placed@,
                            b,
                        ),
                        None => unowned(problem.units@.take(index as int), placed@, b)
                            && not_among(unit.cells@, placed@, at as int, b),
                    },
            decreases unit.cells@.len() - at,
        {
            assert(unit.cells@[at as int].0 < placed@.len());
            let ghost before = owners@;
            if let Some(bel) = placed[unit.cells[at].0] {
                owners.set(bel.0, Some(index));
                proof {
                    assert(owns(problem.units@[index as int], placed@, bel)) by {
                        assert(placed@[unit.cells@[at as int].0 as int] == Some(bel));
                    }
                    assert forall|b: BelId|
                        #![trigger owners@[b.0 as int]]
                        b.0 < owners@.len() implies match owners@[b.0 as int] {
                        Some(u) => u < problem.units@.len() && owns(
                            problem.units@[u as int],
                            placed@,
                            b,
                        ),
                        None => unowned(problem.units@.take(index as int), placed@, b)
                            && not_among(unit.cells@, placed@, at + 1, b),
                    } by {
                        if b.0 == bel.0 {
                            assert(b == bel);
                        } else {
                            assert(owners@[b.0 as int] == before[b.0 as int]);
                        }
                    }
                }
            }
            at = at + 1;
        }
        proof {
            assert forall|b: BelId|
                #![trigger owners@[b.0 as int]]
                b.0 < owners@.len() implies match owners@[b.0 as int] {
                Some(u) => u < problem.units@.len() && owns(
                    problem.units@[u as int],
                    placed@,
                    b,
                ),
                None => unowned(problem.units@.take(index + 1), placed@, b),
            } by {
                if owners@[b.0 as int] is None {
                    let more = problem.units@.take(index + 1);
                    let first = problem.units@.take(index as int);
                    assert forall|u: int| 0 <= u < more.len() implies !owns(
                        #[trigger] more[u],
                        placed@,
                        b,
                    ) by {
                        if u < index {
                            assert(first[u] == more[u]);
                            assert(!owns(first[u], placed@, b));
                        } else if owns(more[u], placed@, b) {
                            let k = choose|k: int|
                                0 <= k < unit.cells@.len() && placed@[(
                                #[trigger] unit.cells@[k]).0 as int] == Some(b);
                            assert(placed@[unit.cells@[k].0 as int] != Some(b));
                        }
                    }
                }
            }
        }
        index = index + 1;
    }
    assert(problem.units@.take(index as int) =~= problem.units@);
    owners
}

/// None of the first cells stands on the BEL.
spec fn not_among(
    cells: Seq<CellId>,
    placed: Seq<Option<BelId>>,
    count: int,
    bel: BelId,
) -> bool {
    forall|k: int| 0 <= k < count ==> placed[(#[trigger] cells[k]).0 as int] != Some(bel)
}

impl<'a, E: PlacementDelayEstimator> DetailedProblem<'a, E> {
    /// Sums up what a placement costs; nothing where the costs of the arcs do
    /// not fit.
    pub(crate) fn detailed_placement_costs(&self, state: PlacementState) -> (result: Option<
        DetailedState,
    >)
        requires
            self.wf(),
            state.wf(self.graph, self.constraints),
            units_stand(self.units@, state.placed@),
        ensures
            match result {
                Some(detailed) => detailed.holds(self) && detailed.state == state
                    && self.are_first_costs(state.placed@, detailed.timing_arcs@),
                None => exists|timing: Seq<Option<u128>>|
                    #[trigger] self.are_first_costs(state.placed@, timing) && timing_total(timing)
                        > u128::MAX,
            },
    {
        let ghost placed = state.placed@;
        proof {
            assert(state.placed.len() == state.placed@.len());
            crate::standing::lemma_standing_cells(
                self.graph,
                self.constraints,
                self.units@,
                placed,
            );
            assert(crate::row_cost::placed_on_device(self.graph.device, placed)) by {
                assert forall|c: int| 0 <= c < placed.len() implies (
                #[trigger] placed[c] matches Some(bel) ==> bel.0
                    < self.graph.device.bels@.len()) by {}
            }
        }
        let owners = find_owners(self, &state.placed);
        let net_bbox = DetailedBoundingBoxCache::new(&self.graph, &state.placed);
        let nobody: Vec<CellId> = Vec::new();
        let nowhere: Vec<BelId> = Vec::new();
        let mut timing_arcs: Vec<Option<u128>> = Vec::new();
        let mut sum: u128 = 0;
        let mut fits = true;
        let mut index: usize = 0;
        proof {
            assert(arc_values(timing_arcs@) =~= Seq::<int>::empty());
        }
        while index < self.arcs.len()
            invariant
                index <= self.arcs@.len(),
                self.wf(),
                placed == state.placed@,
                placed.len() == self.graph.design.cells@.len(),
                nobody@.len() == 0,
                nowhere@.len() == 0,
                timing_arcs@.len() == index,
                forall|i: int|
                    0 <= i < index ==> prices_arc(
                        self.graph,
                        self.constraints,
                        self.estimator,
                        self.arcs@[i],
                        placed,
                        #[trigger] timing_arcs@[i],
                    ),
                timing_total(timing_arcs@) >= 0,
                fits ==> sum == timing_total(timing_arcs@),
                !fits ==> timing_total(timing_arcs@) > u128::MAX,
            decreases self.arcs@.len() - index,
        {
            assert(self.arcs@[index as int].criticality > 1);
            let price: Option<u128> = candidate_arc_timing_cost(
                &self.graph,
                self.constraints,
                &nobody,
                &nowhere,
                &state.placed,
                self.arcs[index],
                self.estimator,
            );
            let ghost before = timing_arcs@;
            timing_arcs.push(price);
            proof {
                assert(with_row(placed, nobody@, nowhere@) == placed);
                assert(arc_values(timing_arcs@).drop_last() =~= arc_values(before));
            }
            if let Some(price) = price {
                if fits {
                    match sum.checked_add(price) {
                        Some(more) => {
                            sum = more;
                        },
                        None => {
                            fits = false;
                        },
                    }
                }
            }
            index = index + 1;
        }
        assert(self.are_first_costs(placed, timing_arcs@));
        if !fits {
            return None;
        }
        let mut bbox: u128 = 0;
        let mut net: usize = 0;
        let count: usize = self.graph.design().nets.len();
        let ghost all = spans(self.graph, placed);
        proof {
            lemma_bbox_fits(self.graph, placed);
            assert(all.take(0) =~= Seq::<int>::empty());
        }
        while net < count
            invariant
                net <= count,
                count == self.graph.design.nets@.len(),
                self.wf(),
                net_bbox.holds(self.graph, placed),
                all == spans(self.graph, placed),
                total(all) <= u128::MAX,
                forall|n: int| 0 <= n < all.len() ==> 0 <= #[trigger] all[n] <= 0x2_0000_0000,
                bbox == total(all.take(net as int)),
            decreases count - net,
        {
            let cost: u64 = net_bbox.net_cost(NetId(net), Ghost(self.graph), Ghost(placed));
            proof {
                assert(all[net as int] == cost);
                assert(all.take(net + 1).drop_last() =~= all.take(net as int));
                assert(all.take(net + 1).last() == cost);
                lemma_prefix_total(all, net + 1);
            }
            bbox = bbox + cost as u128;
            net = net + 1;
        }
        proof {
            assert(all.take(net as int) =~= all);
        }
        Some(DetailedState { state, owners, net_bbox, timing_arcs, totals: (bbox, sum) })
    }
}

/// The first numbers sum up to no more than all of them.
proof fn lemma_prefix_total(values: Seq<int>, count: int)
    requires
        0 <= count <= values.len(),
        forall|i: int| 0 <= i < values.len() ==> #[trigger] values[i] >= 0,
    ensures
        total(values.take(count)) <= total(values),
    decreases values.len() - count,
{
    if count < values.len() {
        lemma_prefix_total(values, count + 1);
        assert(values.take(count + 1).drop_last() =~= values.take(count));
        assert(values.take(count + 1).last() == values[count]);
    } else {
        assert(values.take(count) =~= values);
    }
}

/// The problem is that of the refiner, with these criticalities.
pub open spec fn is_problem<E: PlacementDelayEstimator>(
    refiner: PlacementRefiner<'_>,
    criticalities: Map<Connection, u64>,
    estimator: &E,
    problem: DetailedProblem<'_, E>,
) -> bool {
    &&& problem.wf()
    &&& problem.graph == refiner.graph
    &&& problem.constraints == refiner.constraints
    &&& problem.units@ == refiner.units@
    &&& problem.estimator == estimator
    &&& are_timed_arcs(refiner.graph, criticalities, problem.arcs@)
}

/// Totals of a start, none of them zero.
pub open spec fn normalizer_of(bbox: int, timing: int) -> (u128, u128) {
    (
        if bbox < 1 {
            1
        } else {
            bbox as u128
        },
        if timing < 1 {
            1
        } else {
            timing as u128
        },
    )
}

/// The objective of the start does not fit.
pub open spec fn start_overflows(
    graph: UnifiedGraph<'_>,
    placed: Seq<Option<BelId>>,
    timing: Seq<Option<u128>>,
) -> bool {
    let bbox = bbox_total(graph, placed);
    let sum = timing_total(timing);
    sum > u128::MAX || objective(bbox, sum, normalizer_of(bbox, sum)) is None
}

/// The placement is the one that the run over the units leads to.
pub open spec fn is_predicted<E: PlacementDelayEstimator>(
    refiner: PlacementRefiner<'_>,
    problem: DetailedProblem<'_, E>,
    weights: PlacementWeights<'_>,
    passes: PredictedPlacementPasses,
    before: DetailPoint,
    lists: Seq<Vec<PlacementNeighbor>>,
    order: Seq<RefineOrder>,
    after: DetailPoint,
    found: (Placement, usize),
) -> bool {
    &&& are_neighbors(refiner.graph.design, weights, lists)
    &&& is_refine_order(refiner.units@, lists, order)
    &&& problem.is_run(
        order,
        normalizer_of(bbox_total(refiner.graph, before.0), timing_total(before.1)),
        passes,
        before,
        after,
        found.1,
    )
    &&& is_placement_of(refiner.graph, refiner.constraints, after.0, found.0)
}

/// What one problem makes of a start.
pub open spec fn predicted_from<E: PlacementDelayEstimator>(
    refiner: PlacementRefiner<'_>,
    problem: DetailedProblem<'_, E>,
    weights: PlacementWeights<'_>,
    passes: PredictedPlacementPasses,
    start: Placement,
    timing: Seq<Option<u128>>,
    result: Result<(Placement, usize), PnrError>,
) -> bool {
    let placed = all_placed(start.bindings@);
    if start_overflows(refiner.graph, placed, timing) {
        result matches Err(error) && error is InvalidPlacement
    } else {
        result matches Ok(pair) && exists|
            lists: Seq<Vec<PlacementNeighbor>>,
            order: Seq<RefineOrder>,
            after: DetailPoint,
        |
            #[trigger] is_predicted(
                refiner,
                problem,
                weights,
                passes,
                (placed, timing),
                lists,
                order,
                after,
                pair,
            )
    }
}

/// What refining against predicted timing gives.
pub open spec fn predicted_outcome<E: PlacementDelayEstimator>(
    refiner: PlacementRefiner<'_>,
    criticalities: &OrderedMap<Connection, u64>,
    estimator: &E,
    passes: PredictedPlacementPasses,
    start: Placement,
    result: Result<(Placement, usize), PnrError>,
) -> bool {
    if !starts_legal(refiner.graph, refiner.constraints, refiner.units@, start.bindings@) {
        result matches Err(error) && error is InvalidPlacement
    } else {
        exists|problem: DetailedProblem<'_, E>, timing: Seq<Option<u128>>|
            {
                &&& is_problem(refiner, criticalities@, estimator, problem)
                &&& #[trigger] problem.are_first_costs(all_placed(start.bindings@), timing)
                &&& predicted_from(
                    refiner,
                    problem,
                    by_sink(criticalities, None),
                    passes,
                    start,
                    timing,
                    result,
                )
            }
    }
}

/// The placement that comes of refining against predicted timing.
pub open spec fn placed_only(result: Result<(Placement, usize), PnrError>) -> Result<
    Placement,
    PnrError,
> {
    match result {
        Ok(pair) => Ok(pair.0),
        Err(error) => Err(error),
    }
}

impl<'a> PlacementRefiner<'a> {
    /// Refines a legal placement against normalized net-bounding-box and
    /// architecture-predicted timing costs.
    ///
    /// Each accepted move strictly lowers the same combined objective used
    /// throughout a pass. Wirelength and timing deltas are normalized by their
    /// respective whole-design totals, so neither picoseconds nor tile units
    /// need an architecture-specific tuning coefficient. Candidate placement
    /// units remain atomic and every target-defined shared resource is checked
    /// before the move is scored.
    ///
    /// `sink_criticalities` uses one as the noncritical baseline. Values above
    /// one strengthen only that exact driver-to-sink arc.
    ///
    /// # Errors
    ///
    /// Returns an error if the input placement is incompatible with this
    /// cached placement problem, or if its objective does not fit 128 bits.
    pub fn refine_with_predicted_timing<E: PlacementDelayEstimator>(
        &self,
        placement: Placement,
        sink_criticalities: &OrderedMap<Connection, u64>,
        delay_estimator: &E,
    ) -> (result: Result<Placement, PnrError>)
        requires
            self.wf(),
            sink_criticalities.wf(),
        ensures
            exists|counted: Result<(Placement, usize), PnrError>|
                result == placed_only(counted) && #[trigger] predicted_outcome(
                    *self,
                    sink_criticalities,
                    delay_estimator,
                    PredictedPlacementPasses::UntilFixedPoint,
                    placement,
                    counted,
                ),
    {
        let counted = self.refine_with_predicted_timing_impl(
            placement,
            sink_criticalities,
            delay_estimator,
            PredictedPlacementPasses::UntilFixedPoint,
        );
        assert(predicted_outcome(
            *self,
            sink_criticalities,
            delay_estimator,
            PredictedPlacementPasses::UntilFixedPoint,
            placement,
            counted,
        ));
        match counted {
            Ok(pair) => Ok(pair.0),
            Err(error) => Err(error),
        }
    }

    /// Runs exactly one deterministic predicted-timing refinement sweep.
    ///
    /// The returned count is the number of placement units moved by the
    /// sweep. Callers that refresh timing between sweeps can stop without
    /// another STA evaluation when this count is zero. Unlike
    /// [`Self::refine_with_predicted_timing`], this method never reuses one
    /// set of criticalities for multiple sweeps.
    ///
    /// # Errors
    ///
    /// Returns an error if the input placement is incompatible with this
    /// cached placement problem, or if its objective does not fit 128 bits.
    pub fn refine_with_predicted_timing_pass<E: PlacementDelayEstimator>(
        &self,
        placement: Placement,
        sink_criticalities: &OrderedMap<Connection, u64>,
        delay_estimator: &E,
    ) -> (result: Result<(Placement, usize), PnrError>)
        requires
            self.wf(),
            sink_criticalities.wf(),
        ensures
            predicted_outcome(
                *self,
                sink_criticalities,
                delay_estimator,
                PredictedPlacementPasses::One,
                placement,
                result,
            ),
    {
        self.refine_with_predicted_timing_impl(
            placement,
            sink_criticalities,
            delay_estimator,
            PredictedPlacementPasses::One,
        )
    }

    /// Refines a legal placement against predicted timing.
    fn refine_with_predicted_timing_impl<E: PlacementDelayEstimator>(
        &self,
        placement: Placement,
        sink_criticalities: &OrderedMap<Connection, u64>,
        delay_estimator: &E,
        passes: PredictedPlacementPasses,
    ) -> (result: Result<(Placement, usize), PnrError>)
        requires
            self.wf(),
            sink_criticalities.wf(),
        ensures
            predicted_outcome(
                *self,
                sink_criticalities,
                delay_estimator,
                passes,
                placement,
                result,
            ),
    {
        let weights = PlacementWeights {
            net_weights: None,
            sink_weights: Some(sink_criticalities),
            sink_budgets: None,
        };
        let (_, neighbors) = placement_neighbors(self.graph.design(), weights);
        proof {
            lemma_valid_in_range(self.graph, self.constraints);
        }
        let state = match validate_refinement_start(
            &self.graph,
            self.constraints,
            &self.units,
            &self.spatial_indexes,
            &placement,
        ) {
            Err(error) => {
                return Err(error);
            },
            Ok(state) => state,
        };
        let arcs = timed_arcs(&self.graph, sink_criticalities);
        let incidents = detailed_placement_incidents(
            &self.graph,
            &self.units,
            &arcs,
            Ghost(self.constraints),
        );
        let families = group_families(&self.graph, self.constraints, &self.units);
        let problem = DetailedProblem {
            graph: self.graph,
            constraints: self.constraints,
            units: &self.units,
            spatial: &self.spatial_indexes,
            estimator: delay_estimator,
            arcs,
            incidents,
            families,
        };
        let ghost placed = state.placed@;
        proof {
            assert(units_cover(self.graph, self.units@));
            assert(problem.wf());
            assert(is_problem(*self, sink_criticalities@, delay_estimator, problem));
        }
        let mut detailed = match problem.detailed_placement_costs(state) {
            Some(detailed) => detailed,
            None => {
                proof {
                    let timing = choose|timing: Seq<Option<u128>>|
                        #[trigger] problem.are_first_costs(placed, timing) && timing_total(timing)
                            > u128::MAX;
                    assert(start_overflows(self.graph, placed, timing));
                }
                return Err(
                    crate::finish::refuse_placement(
                        crate::text::joined(
                            "predicted timing total",
                            " does not fit ",
                            "128 bits",
                        ),
                    ),
                );
            },
        };
        let ghost timing = detailed.timing_arcs@;
        let normalizer: (u128, u128) = (
            if detailed.totals.0 < 1 {
                1
            } else {
                detailed.totals.0
            },
            if detailed.totals.1 < 1 {
                1
            } else {
                detailed.totals.1
            },
        );
        let value: u128 = match detailed_placement_objective(detailed.totals, normalizer) {
            Some(value) => value,
            None => {
                assert(start_overflows(self.graph, placed, timing));
                return Err(
                    crate::finish::refuse_placement(
                        crate::text::joined(
                            "physical placement objective",
                            " does not fit ",
                            "128 bits",
                        ),
                    ),
                );
            },
        };
        let order = refinement_order(
            &self.units,
            &neighbors,
            Ghost(self.graph),
            Ghost(self.constraints),
        );
        let moved: usize = problem.refine_predicted_placement(
            &order,
            &mut detailed,
            normalizer,
            value,
            passes,
            Ghost(neighbors@),
        );
        match finish_standing(
            &self.graph,
            self.constraints,
            &detailed.state,
            Ghost(self.units@),
        ) {
            Err(error) => Err(error),
            Ok(refined) => {
                proof {
                    let after = (detailed.state.placed@, detailed.timing_arcs@);
                    assert(problem.is_run(
                        order@,
                        normalizer,
                        passes,
                        (placed, timing),
                        after,
                        moved,
                    ));
                    assert(is_refine_order(self.units@, neighbors@, order@));
                    assert(placed == all_placed(placement.bindings@));
                    assert(normalizer == normalizer_of(
                        bbox_total(self.graph, placed),
                        timing_total(timing),
                    ));
                    assert(!start_overflows(self.graph, placed, timing));
                    assert(are_neighbors(
                        self.graph.design,
                        by_sink(sink_criticalities, None),
                        neighbors@,
                    ));
                    assert(is_placement_of(
                        self.graph,
                        self.constraints,
                        after.0,
                        refined,
                    ));
                    assert(is_predicted(
                        *self,
                        problem,
                        by_sink(sink_criticalities, None),
                        passes,
                        (placed, timing),
                        neighbors@,
                        order@,
                        after,
                        (refined, moved),
                    ));
                    let found: Result<(Placement, usize), PnrError> = Ok((refined, moved));
                    assert(is_predicted(
                        *self,
                        problem,
                        by_sink(sink_criticalities, None),
                        passes,
                        (all_placed(placement.bindings@), timing),
                        neighbors@,
                        order@,
                        after,
                        found->Ok_0,
                    ));
                    assert(predicted_from(
                        *self,
                        problem,
                        by_sink(sink_criticalities, None),
                        passes,
                        placement,
                        timing,
                        found,
                    ));
                }
                Ok((refined, moved))
            },
        }
    }
}

} // verus!
