//! State of a detailed refinement, and what a move would cost.

use vstd::prelude::*;

use crate::bbox_cache::{DetailedBoundingBoxCache, DetailedBoundingBoxDeltaWorkspace};
use crate::detail::{tracks_owners, DetailedProblem};
use crate::detail_costs::{
    arc_values, bbox_total, candidate_arc_timing_cost, detailed_totals_after_replacement,
    lemma_bbox_fits, lemma_partial_bounded, lemma_price_stays, lemma_total_positive,
    lemma_total_replaced, partial_total, prices_arc, spans, timing_total, total,
};
use crate::incidents::{touches_arc, touches_net};
use crate::model::{BelId, CellId, NetId};
use crate::net_span::{driver_cell, endpoints, lemma_endpoints, lemma_span_agrees, net_cells};
use crate::ordered::{increasing, increasing_has_no_duplicates};
use crate::placement_state::PlacementState;
use crate::refiner::PlacementDelayEstimator;
use crate::row_cost::placed_on_device;
use crate::standing::units_stand;
use crate::targets::sink_cell;
use crate::usage_model::{cells_in_range, lemma_with_row, with_row};

verus! {

/// State of a detailed refinement.
pub struct DetailedState {
    /// Where the cells stand, and what they take.
    pub state: PlacementState,
    /// Unit that stands on each BEL.
    pub owners: Vec<Option<usize>>,
    /// Boxes of all nets.
    pub net_bbox: DetailedBoundingBoxCache,
    /// Cost of each critical arc that has one.
    pub timing_arcs: Vec<Option<u128>>,
    /// Sums of the half-perimeters and of the arcs' costs.
    pub totals: (u128, u128),
}

/// Costs of the arcs with some of them replaced.
pub open spec fn patched(
    timing: Seq<Option<u128>>,
    listed: Seq<usize>,
    prices: Seq<Option<u128>>,
) -> Seq<Option<u128>> {
    Seq::new(
        timing.len(),
        |i: int|
            if listed.contains(i as usize) {
                prices[listed.index_of(i as usize)]
            } else {
                timing[i]
            },
    )
}

/// What a move would cost.
pub struct Evaluation {
    /// Sums after the move.
    pub totals: (u128, u128),
    /// Costs of the arcs that the move touches.
    pub prices: Vec<Option<u128>>,
}

/// Positions as integers.
pub open spec fn net_positions(nets: Seq<NetId>) -> Seq<int> {
    Seq::new(nets.len(), |k: int| nets[k].0 as int)
}

/// Positions as integers.
pub open spec fn arc_positions(listed: Seq<usize>) -> Seq<int> {
    Seq::new(listed.len(), |k: int| listed[k] as int)
}

impl<'a, E: PlacementDelayEstimator> DetailedProblem<'a, E> {
    /// The arcs that cost something have a cost under the placement.
    pub open spec fn are_priced(
        &self,
        placed: Seq<Option<BelId>>,
        timing: Seq<Option<u128>>,
    ) -> bool {
        &&& timing.len() == self.arcs@.len()
        &&& forall|i: int|
            0 <= i < timing.len() && timing[i] is Some ==> prices_arc(
                self.graph,
                self.constraints,
                self.estimator,
                #[trigger] self.arcs@[i],
                placed,
                timing[i],
            )
    }

    /// The arc has a cost that a move of the cells may change.
    pub open spec fn is_repriced(
        &self,
        timing: Seq<Option<u128>>,
        cells: Seq<CellId>,
        arc: int,
    ) -> bool {
        timing[arc] is Some && touches_arc(self.graph, cells, self.arcs@[arc])
    }

    /// Costs after the move: those of touched arcs are new.
    pub open spec fn is_pricing(
        &self,
        timing: Seq<Option<u128>>,
        trial: Seq<Option<BelId>>,
        cells: Seq<CellId>,
        new: Seq<Option<u128>>,
    ) -> bool {
        &&& new.len() == timing.len()
        &&& forall|i: int|
            0 <= i < timing.len() ==> if self.is_repriced(timing, cells, i) {
                (#[trigger] new[i]) is Some && prices_arc(
                    self.graph,
                    self.constraints,
                    self.estimator,
                    self.arcs@[i],
                    trial,
                    new[i],
                )
            } else {
                new[i] == timing[i]
            }
    }

    /// A touched arc would have no cost.
    pub open spec fn loses_price(
        &self,
        timing: Seq<Option<u128>>,
        trial: Seq<Option<BelId>>,
        cells: Seq<CellId>,
        arc: int,
    ) -> bool {
        &&& 0 <= arc < timing.len()
        &&& self.is_repriced(timing, cells, arc)
        &&& prices_arc(
            self.graph,
            self.constraints,
            self.estimator,
            self.arcs@[arc],
            trial,
            None,
        )
    }

    /// What the move costs; nothing where an arc loses its cost, or where the
    /// costs do not fit.
    pub open spec fn is_evaluation(
        &self,
        timing: Seq<Option<u128>>,
        trial: Seq<Option<BelId>>,
        cells: Seq<CellId>,
        result: Option<Seq<Option<u128>>>,
    ) -> bool {
        match result {
            Some(new) => self.is_pricing(timing, trial, cells, new) && timing_total(new)
                <= u128::MAX,
            None => {
                ||| exists|arc: int| #[trigger] self.loses_price(timing, trial, cells, arc)
                ||| exists|new: Seq<Option<u128>>|
                    #[trigger] self.is_pricing(timing, trial, cells, new) && timing_total(new)
                        > u128::MAX
            },
        }
    }

    /// The costs after a move are costs under it.
    pub proof fn lemma_pricing_holds(
        &self,
        placed: Seq<Option<BelId>>,
        timing: Seq<Option<u128>>,
        cells: Seq<CellId>,
        row: Seq<BelId>,
        new: Seq<Option<u128>>,
    )
        requires
            self.wf(),
            placed.len() == self.graph.design.cells@.len(),
            cells.len() == row.len(),
            cells.no_duplicates(),
            cells_in_range(cells, placed.len() as int),
            self.are_priced(placed, timing),
            self.is_pricing(timing, with_row(placed, cells, row), cells, new),
        ensures
            self.are_priced(with_row(placed, cells, row), new),
    {
        let trial = with_row(placed, cells, row);
        lemma_with_row(placed, cells, row);
        assert(self.graph.design.cells.len() == self.graph.design.cells@.len());
        assert forall|i: int| 0 <= i < new.len() && new[i] is Some implies prices_arc(
            self.graph,
            self.constraints,
            self.estimator,
            #[trigger] self.arcs@[i],
            trial,
            new[i],
        ) by {
            let timing_arc = self.arcs@[i];
            assert(timing_arc.criticality > 1);
            lemma_endpoints(self.graph.design, timing_arc.arc.net.0 as int);
            let driver = driver_cell(self.graph.design, timing_arc.arc.net.0 as int);
            let sink = sink_cell(self.graph, timing_arc.arc);
            assert(net_cells(self.graph.design, timing_arc.arc.net.0 as int)[0] == driver);
            assert(self.graph.design.pins@[timing_arc.arc.sink.0 as int].cell.0
                < self.graph.design.cells@.len());
            assert(new[i] is Some);
            if !self.is_repriced(timing, cells, i) {
                assert(new[i] == timing[i]);
                assert(CellId((driver.0 as int) as usize) == driver);
                assert(CellId((sink.0 as int) as usize) == sink);
                assert(trial[driver.0 as int] == placed[driver.0 as int]);
                assert(trial[sink.0 as int] == placed[sink.0 as int]);
                lemma_price_stays(
                    self.graph,
                    self.constraints,
                    self.estimator,
                    timing_arc,
                    placed,
                    trial,
                    timing[i],
                );
            }
        }
    }

    /// Boxes of nets that the move does not touch stay.
    proof fn lemma_untouched_spans(
        &self,
        placed: Seq<Option<BelId>>,
        cells: Seq<CellId>,
        row: Seq<BelId>,
        nets: Seq<NetId>,
    )
        requires
            self.wf(),
            placed.len() == self.graph.design.cells@.len(),
            cells.len() == row.len(),
            cells.no_duplicates(),
            cells_in_range(cells, placed.len() as int),
            forall|n: NetId| #[trigger]
                nets.contains(n) <==> n.0 < self.graph.design.nets@.len() && touches_net(
                    self.graph.design,
                    cells,
                    n.0 as int,
                ),
        ensures
            forall|i: int|
                0 <= i < spans(self.graph, placed).len() && !net_positions(nets).contains(i)
                    ==> #[trigger] spans(self.graph, placed)[i] == spans(
                    self.graph,
                    with_row(placed, cells, row),
                )[i],
    {
        let trial = with_row(placed, cells, row);
        lemma_with_row(placed, cells, row);
        assert(self.graph.design.nets.len() == self.graph.design.nets@.len());
        assert forall|i: int|
            0 <= i < spans(self.graph, placed).len() && !net_positions(nets).contains(
                i,
            ) implies #[trigger] spans(self.graph, placed)[i] == spans(self.graph, trial)[i] by {
            let id = NetId(i as usize);
            assert(!nets.contains(id)) by {
                if nets.contains(id) {
                    let k = nets.index_of(id);
                    assert(net_positions(nets)[k] == i);
                }
            }
            assert(!touches_net(self.graph.design, cells, i));
            lemma_endpoints(self.graph.design, i);
            let ends = endpoints(self.graph.design, i);
            assert forall|k: int| 0 <= k < ends.len() implies placed[(
            #[trigger] ends[k]).0 as int] == trial[ends[k].0 as int] by {
                let cell = ends[k];
                assert(net_cells(self.graph.design, i)[k] == cell);
                assert(!cells.contains(net_cells(self.graph.design, i)[k]));
                assert(CellId((cell.0 as int) as usize) == cell);
            }
            lemma_span_agrees(self.graph, placed, trial, i);
        }
    }

    /// Prices the arcs that the move touches.
    fn price_arcs(
        &self,
        cells: &Vec<CellId>,
        row: &Vec<BelId>,
        listed: &Vec<usize>,
        placed: &Vec<Option<BelId>>,
        timing: &Vec<Option<u128>>,
    ) -> (result: Option<Vec<Option<u128>>>)
        requires
            self.wf(),
            placed@.len() == self.graph.design.cells@.len(),
            cells@.len() == row@.len(),
            cells@.no_duplicates(),
            cells_in_range(cells@, placed@.len() as int),
            timing@.len() == self.arcs@.len(),
            increasing(listed@),
            forall|i: usize| #[trigger]
                listed@.contains(i) <==> i < self.arcs@.len() && touches_arc(
                    self.graph,
                    cells@,
                    self.arcs@[i as int],
                ),
        ensures
            match result {
                Some(prices) => prices@.len() == listed@.len() && self.is_pricing(
                    timing@,
                    with_row(placed@, cells@, row@),
                    cells@,
                    patched(timing@, listed@, prices@),
                ),
                None => exists|arc: int| #[trigger]
                    self.loses_price(
                        timing@,
                        with_row(placed@, cells@, row@),
                        cells@,
                        arc,
                    ),
            },
    {
        let ghost trial = with_row(placed@, cells@, row@);
        let mut prices: Vec<Option<u128>> = Vec::new();
        let mut at: usize = 0;
        while at < listed.len()
            invariant
                at <= listed@.len(),
                self.wf(),
                placed@.len() == self.graph.design.cells@.len(),
                cells@.len() == row@.len(),
                cells@.no_duplicates(),
                cells_in_range(cells@, placed@.len() as int),
                trial == with_row(placed@, cells@, row@),
                timing@.len() == self.arcs@.len(),
                forall|i: usize| #[trigger]
                    listed@.contains(i) <==> i < self.arcs@.len() && touches_arc(
                        self.graph,
                        cells@,
                        self.arcs@[i as int],
                    ),
                prices@.len() == at,
                forall|k: int|
                    0 <= k < at ==> if timing@[listed@[k] as int] is Some {
                        (#[trigger] prices@[k]) is Some && prices_arc(
                            self.graph,
                            self.constraints,
                            self.estimator,
                            self.arcs@[listed@[k] as int],
                            trial,
                            prices@[k],
                        )
                    } else {
                        prices@[k] is None
                    },
            decreases listed@.len() - at,
        {
            let arc: usize = listed[at];
            assert(listed@.contains(arc));
            match timing[arc] {
                None => {
                    prices.push(None);
                },
                Some(_) => {
                    assert(self.arcs@[arc as int].criticality > 1);
                    let price = candidate_arc_timing_cost(
                        &self.graph,
                        self.constraints,
                        cells,
                        row,
                        placed,
                        self.arcs[arc],
                        self.estimator,
                    );
                    if price.is_none() {
                        assert(self.loses_price(timing@, trial, cells@, arc as int));
                        return None;
                    }
                    prices.push(price);
                },
            }
            at = at + 1;
        }
        proof {
            let new = patched(timing@, listed@, prices@);
            assert(self.arcs.len() == self.arcs@.len());
            assert forall|i: int| 0 <= i < timing@.len() implies if self.is_repriced(
                timing@,
                cells@,
                i,
            ) {
                (#[trigger] new[i]) is Some && prices_arc(
                    self.graph,
                    self.constraints,
                    self.estimator,
                    self.arcs@[i],
                    trial,
                    new[i],
                )
            } else {
                new[i] == timing@[i]
            } by {
                let id = i as usize;
                assert(id == i);
                if listed@.contains(id) {
                    let k = listed@.index_of(id);
                    assert(listed@[k] == id);
                    assert(new[i] == prices@[k]);
                }
            }
        }
        Some(prices)
    }

    /// Sums up what the move costs.
    pub(crate) fn evaluate(
        &self,
        cells: &Vec<CellId>,
        row: &Vec<BelId>,
        nets: &Vec<NetId>,
        listed: &Vec<usize>,
        detailed: &DetailedState,
        workspace: &mut DetailedBoundingBoxDeltaWorkspace,
    ) -> (result: Option<Evaluation>)
        requires
            self.wf(),
            detailed.holds(self),
            old(workspace).wf(self.graph.design.nets@.len() as int),
            cells@.len() == row@.len(),
            cells@.no_duplicates(),
            cells_in_range(cells@, self.graph.design.cells@.len() as int),
            forall|k: int|
                0 <= k < row@.len() ==> (#[trigger] row@[k]).0 < self.graph.device.bels@.len(),
            increasing(nets@),
            forall|n: NetId| #[trigger]
                nets@.contains(n) <==> n.0 < self.graph.design.nets@.len() && touches_net(
                    self.graph.design,
                    cells@,
                    n.0 as int,
                ),
            increasing(listed@),
            forall|i: usize| #[trigger]
                listed@.contains(i) <==> i < self.arcs@.len() && touches_arc(
                    self.graph,
                    cells@,
                    self.arcs@[i as int],
                ),
        ensures
            final(workspace).wf(self.graph.design.nets@.len() as int),
            exists|lifted: Seq<Option<BelId>>| #[trigger]
                final(workspace).leads(
                    self.graph,
                    detailed.state.placed@,
                    lifted,
                    with_row(detailed.state.placed@, cells@, row@),
                ),
            match result {
                Some(found) => {
                    let new = patched(detailed.timing_arcs@, listed@, found.prices@);
                    &&& found.prices@.len() == listed@.len()
                    &&& self.is_evaluation(
                        detailed.timing_arcs@,
                        with_row(detailed.state.placed@, cells@, row@),
                        cells@,
                        Some(new),
                    )
                    &&& found.totals.0 == bbox_total(
                        self.graph,
                        with_row(detailed.state.placed@, cells@, row@),
                    )
                    &&& found.totals.1 == timing_total(new)
                },
                None => self.is_evaluation(
                    detailed.timing_arcs@,
                    with_row(detailed.state.placed@, cells@, row@),
                    cells@,
                    None,
                ),
            },
    {
        let ghost placed = detailed.state.placed@;
        let ghost trial = with_row(placed, cells@, row@);
        let ghost timing = detailed.timing_arcs@;
        proof {
            detailed.lemma_complete(self);
        }
        let lifted = detailed.net_bbox.trial_deltas(
            &self.graph,
            cells,
            row,
            &detailed.state.placed,
            workspace,
        );
        let prices = match self.price_arcs(
            cells,
            row,
            listed,
            &detailed.state.placed,
            &detailed.timing_arcs,
        ) {
            Some(prices) => prices,
            None => {
                return None;
            },
        };
        let ghost new = patched(timing, listed@, prices@);
        let ghost was = spans(self.graph, placed);
        let ghost now = spans(self.graph, trial);
        let ghost places = net_positions(nets@);
        proof {
            lemma_bbox_fits(self.graph, placed);
            lemma_bbox_fits(self.graph, trial);
            increasing_has_no_duplicates(nets@);
            assert(places.no_duplicates()) by {
                assert forall|i: int, j: int| 0 <= i < places.len() && 0 <= j < places.len() && i
                    != j implies places[i] != places[j] by {
                    assert(nets@[i] != nets@[j]);
                }
            }
            assert forall|k: int| 0 <= k < places.len() implies 0 <= #[trigger] places[k]
                < was.len() by {
                assert(nets@.contains(nets@[k]));
            }
            self.lemma_untouched_spans(placed, cells@, row@, nets@);
            lemma_total_replaced(was, now, places);
            lemma_partial_bounded(was, places);
            lemma_partial_bounded(now, places);
            assert(places.take(0) =~= Seq::<int>::empty());
        }
        let mut old_bbox: u128 = 0;
        let mut new_bbox: u128 = 0;
        let mut at: usize = 0;
        while at < nets.len()
            invariant
                at <= nets@.len(),
                self.wf(),
                detailed.holds(self),
                placed == detailed.state.placed@,
                workspace.wf(self.graph.design.nets@.len() as int),
                workspace.leads(self.graph, placed, lifted@, trial),
                was == spans(self.graph, placed),
                now == spans(self.graph, trial),
                places == net_positions(nets@),
                places.no_duplicates(),
                forall|k: int| 0 <= k < places.len() ==> 0 <= #[trigger] places[k] < was.len(),
                forall|i: int| 0 <= i < was.len() ==> 0 <= #[trigger] was[i] <= 0x2_0000_0000,
                forall|i: int| 0 <= i < now.len() ==> 0 <= #[trigger] now[i] <= 0x2_0000_0000,
                total(was) <= u128::MAX,
                total(now) <= u128::MAX,
                forall|n: NetId| #[trigger]
                    nets@.contains(n) ==> n.0 < self.graph.design.nets@.len(),
                old_bbox == partial_total(was, places.take(at as int)),
                new_bbox == partial_total(now, places.take(at as int)),
            decreases nets@.len() - at,
        {
            let net = nets[at];
            proof {
                assert(nets@.contains(net));
                let more = places.take(at + 1);
                assert(more.drop_last() =~= places.take(at as int));
                assert(more.last() == net.0);
                lemma_prefix_bounded(was, places, at + 1);
                lemma_prefix_bounded(now, places, at + 1);
                assert(was[net.0 as int] >= 0);
            }
            let old_cost: u64 = detailed.net_bbox.net_cost(net, Ghost(self.graph), Ghost(placed));
            let new_cost: u64 = detailed.net_bbox.net_cost_after_delta(
                net,
                workspace,
                Ghost(self.graph),
                Ghost(placed),
                Ghost(lifted@),
                Ghost(trial),
            );
            proof {
                assert(was[net.0 as int] == old_cost);
                assert(now[net.0 as int] == new_cost);
            }
            old_bbox = old_bbox + old_cost as u128;
            new_bbox = new_bbox + new_cost as u128;
            at = at + 1;
        }
        let ghost before = arc_values(timing);
        let ghost after = arc_values(new);
        let ghost spots = arc_positions(listed@);
        proof {
            assert(places.take(at as int) =~= places);
            increasing_has_no_duplicates(listed@);
            assert(spots.no_duplicates()) by {
                assert forall|i: int, j: int| 0 <= i < spots.len() && 0 <= j < spots.len() && i
                    != j implies spots[i] != spots[j] by {
                    assert(listed@[i] != listed@[j]);
                }
            }
            assert forall|k: int| 0 <= k < spots.len() implies 0 <= #[trigger] spots[k]
                < before.len() by {
                assert(listed@.contains(listed@[k]));
            }
            assert(self.arcs.len() == self.arcs@.len());
            assert forall|i: int|
                0 <= i < before.len() && !spots.contains(i) implies #[trigger] before[i]
                == after[i] by {
                let id = i as usize;
                assert(!listed@.contains(id)) by {
                    if listed@.contains(id) {
                        let k = listed@.index_of(id);
                        assert(spots[k] == i);
                    }
                }
            }
            lemma_total_replaced(before, after, spots);
            lemma_partial_bounded(before, spots);
            lemma_partial_bounded(after, spots);
            lemma_total_positive(after);
            assert(spots.take(0) =~= Seq::<int>::empty());
        }
        let mut old_timing: u128 = 0;
        let mut new_timing: u128 = 0;
        let mut fits = true;
        let mut step: usize = 0;
        while step < listed.len()
            invariant
                step <= listed@.len(),
                self.wf(),
                timing == detailed.timing_arcs@,
                timing.len() == self.arcs@.len(),
                prices@.len() == listed@.len(),
                new == patched(timing, listed@, prices@),
                before == arc_values(timing),
                after == arc_values(new),
                spots == arc_positions(listed@),
                spots.no_duplicates(),
                listed@.no_duplicates(),
                forall|k: int| 0 <= k < spots.len() ==> 0 <= #[trigger] spots[k] < before.len(),
                forall|i: int| 0 <= i < before.len() ==> #[trigger] before[i] >= 0,
                forall|i: int| 0 <= i < after.len() ==> #[trigger] after[i] >= 0,
                total(before) <= u128::MAX,
                old_timing == partial_total(before, spots.take(step as int)),
                fits ==> new_timing == partial_total(after, spots.take(step as int)),
                !fits ==> total(after) > u128::MAX,
            decreases listed@.len() - step,
        {
            let arc: usize = listed[step];
            proof {
                let more = spots.take(step + 1);
                assert(more.drop_last() =~= spots.take(step as int));
                assert(more.last() == arc);
                assert(0 <= spots[step as int] < before.len());
                lemma_prefix_bounded(before, spots, step + 1);
                lemma_prefix_bounded(after, spots, step + 1);
                assert(before[arc as int] >= 0);
                assert(listed@.contains(arc));
                assert(listed@.index_of(arc) == step) by {
                    let k = listed@.index_of(arc);
                    if k != step {
                        assert(listed@[k] != listed@[step as int]);
                    }
                }
                assert(new[arc as int] == prices@[step as int]);
            }
            let old_price: u128 = match detailed.timing_arcs[arc] {
                Some(price) => price,
                None => 0,
            };
            let new_price: u128 = match prices[step] {
                Some(price) => price,
                None => 0,
            };
            old_timing = old_timing + old_price;
            if fits {
                match new_timing.checked_add(new_price) {
                    Some(sum) => {
                        new_timing = sum;
                    },
                    None => {
                        fits = false;
                    },
                }
            }
            step = step + 1;
        }
        proof {
            assert(spots.take(step as int) =~= spots);
        }
        if !fits {
            assert(timing_total(new) > u128::MAX);
            assert(self.is_pricing(timing, trial, cells@, new));
            return None;
        }
        match detailed_totals_after_replacement(
            detailed.totals,
            (old_bbox, old_timing),
            (new_bbox, new_timing),
        ) {
            Some(totals) => Some(Evaluation { totals, prices }),
            None => {
                assert(timing_total(new) > u128::MAX);
                assert(self.is_pricing(timing, trial, cells@, new));
                None
            },
        }
    }
}

/// Parts of a part are no greater than the sum.
proof fn lemma_prefix_bounded(values: Seq<int>, positions: Seq<int>, count: int)
    requires
        0 <= count <= positions.len(),
        positions.no_duplicates(),
        forall|k: int| 0 <= k < positions.len() ==> 0 <= #[trigger] positions[k] < values.len(),
        forall|i: int| 0 <= i < values.len() ==> #[trigger] values[i] >= 0,
    ensures
        0 <= partial_total(values, positions.take(count)) <= total(values),
{
    let first = positions.take(count);
    assert forall|k: int| 0 <= k < first.len() implies 0 <= #[trigger] first[k] < values.len() by {
        assert(first[k] == positions[k]);
    }
    assert(first.no_duplicates()) by {
        assert forall|i: int, j: int| 0 <= i < first.len() && 0 <= j < first.len() && i
            != j implies first[i] != first[j] by {
            assert(positions[i] != positions[j]);
        }
    }
    lemma_partial_bounded(values, first);
}

impl DetailedState {
    /// The records are those of a complete, legal placement.
    pub open spec fn holds<E: PlacementDelayEstimator>(
        &self,
        problem: &DetailedProblem<'_, E>,
    ) -> bool {
        &&& self.state.wf(problem.graph, problem.constraints)
        &&& units_stand(problem.units@, self.state.placed@)
        &&& self.owners@.len() == problem.graph.device.bels@.len()
        &&& tracks_owners(problem.units@, self.state.placed@, self.owners@)
        &&& self.net_bbox.holds(problem.graph, self.state.placed@)
        &&& problem.are_priced(self.state.placed@, self.timing_arcs@)
        &&& self.totals.0 == bbox_total(problem.graph, self.state.placed@)
        &&& self.totals.1 == timing_total(self.timing_arcs@)
    }

    /// Every cell stands on a BEL of the device.
    pub proof fn lemma_complete<E: PlacementDelayEstimator>(
        &self,
        problem: &DetailedProblem<'_, E>,
    )
        requires
            problem.wf(),
            self.holds(problem),
        ensures
            self.state.placed@.len() == problem.graph.design.cells@.len(),
            self.state.placed@.len() <= usize::MAX,
            placed_on_device(problem.graph.device, self.state.placed@),
            forall|c: int|
                0 <= c < self.state.placed@.len() ==> (#[trigger] self.state.placed@[c]) is Some,
    {
        assert(self.state.placed.len() == self.state.placed@.len());
        crate::standing::lemma_standing_cells(
            problem.graph,
            problem.constraints,
            problem.units@,
            self.state.placed@,
        );
        assert(placed_on_device(problem.graph.device, self.state.placed@)) by {
            assert forall|c: int| 0 <= c < self.state.placed@.len() implies (
            #[trigger] self.state.placed@[c] matches Some(bel) ==> bel.0
                < problem.graph.device.bels@.len()) by {}
        }
    }
}

} // verus!
