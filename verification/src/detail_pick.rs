//! The best of the moves that a unit is offered.

use vstd::prelude::*;

use crate::bbox_cache::DetailedBoundingBoxDeltaWorkspace;
use crate::detail::{row_of, DetailedProblem};
use crate::detail_costs::{bbox_total, detailed_placement_objective, timing_total};
use crate::detail_state::{patched, DetailedState, Evaluation};
use crate::detail_step::MoveCosts;
use crate::incidents::{is_incident, merge_sorted_unique, touches_arc, touches_net};
use crate::model::{BelId, CellId, NetId};
use crate::net_span::net_cells;
use crate::ordered::{copy_keys, increasing, OrderedKey, OrderedMap};
use crate::refiner::PlacementDelayEstimator;

verus! {

/// What a move touches.
pub struct MoveScope {
    /// Cells that are placed anew.
    pub cells: Vec<CellId>,
    /// Where they are placed.
    pub row: Vec<BelId>,
    /// Nets of the cells.
    pub nets: Vec<NetId>,
    /// Positions of critical arcs of the cells.
    pub listed: Vec<usize>,
}

/// A move with what it costs.
pub struct BestMove {
    /// Objective after the move.
    pub value: u128,
    /// Choice of the moving unit.
    pub choice: usize,
    /// Unit that swaps with it.
    pub partner: Option<usize>,
    /// What the move touches.
    pub scope: MoveScope,
    /// What it costs.
    pub found: Evaluation,
}

impl<'a, E: PlacementDelayEstimator> DetailedProblem<'a, E> {
    /// The scope is that of the move.
    pub open spec fn is_scope(
        &self,
        placed: Seq<Option<BelId>>,
        moving: int,
        choice: int,
        partner: Option<usize>,
        scope: MoveScope,
    ) -> bool {
        &&& scope.cells@ == self.moved_cells(moving, partner)
        &&& scope.row@ == self.moved_row(placed, moving, choice, partner)
        &&& increasing(scope.nets@)
        &&& forall|n: NetId| #[trigger]
            scope.nets@.contains(n) <==> n.0 < self.graph.design.nets@.len() && touches_net(
                self.graph.design,
                scope.cells@,
                n.0 as int,
            )
        &&& increasing(scope.listed@)
        &&& forall|i: usize| #[trigger]
            scope.listed@.contains(i) <==> i < self.arcs@.len() && touches_arc(
                self.graph,
                scope.cells@,
                self.arcs@[i as int],
            )
    }

    /// Gathers what the move touches.
    fn gather(
        &self,
        moving: usize,
        choice: usize,
        partner: Option<usize>,
        current: &Vec<BelId>,
        Ghost(placed): Ghost<Seq<Option<BelId>>>,
    ) -> (result: MoveScope)
        requires
            self.wf(),
            moving < self.units@.len(),
            choice < self.units@[moving as int].choices.count(),
            partner matches Some(other) ==> other < self.units@.len(),
            current@ == row_of(self.units@[moving as int], placed),
        ensures
            self.is_scope(placed, moving as int, choice as int, partner, result),
    {
        let unit = &self.units[moving];
        let mut cells = copy_keys(&unit.cells);
        let mut row = unit.choices.assignment(choice);
        let mut nets: Vec<NetId> = Vec::new();
        let mut listed: Vec<usize> = Vec::new();
        assert(is_incident(
            self.graph,
            self.units@[moving as int].cells@,
            self.arcs@,
            self.incidents@[moving as int],
        ));
        match partner {
            None => {
                nets = copy_keys(&self.incidents[moving].nets);
                listed = copy_keys(&self.incidents[moving].timing_arcs);
            },
            Some(other) => {
                let with = &self.units[other];
                assert(is_incident(
                    self.graph,
                    self.units@[other as int].cells@,
                    self.arcs@,
                    self.incidents@[other as int],
                ));
                merge_sorted_unique(
                    &self.incidents[moving].nets,
                    &self.incidents[other].nets,
                    &mut nets,
                );
                merge_sorted_unique(
                    &self.incidents[moving].timing_arcs,
                    &self.incidents[other].timing_arcs,
                    &mut listed,
                );
                let mut at: usize = 0;
                while at < with.cells.len()
                    invariant
                        at <= with.cells@.len(),
                        cells@ == unit.cells@ + with.cells@.take(at as int),
                    decreases with.cells@.len() - at,
                {
                    cells.push(with.cells[at]);
                    proof {
                        assert(with.cells@.take(at + 1) =~= with.cells@.take(at as int).push(
                            with.cells@[at as int],
                        ));
                        assert(cells@ =~= unit.cells@ + with.cells@.take(at + 1));
                    }
                    at = at + 1;
                }
                assert(with.cells@.take(at as int) =~= with.cells@);
                let ghost first = row@;
                let mut step: usize = 0;
                while step < current.len()
                    invariant
                        step <= current@.len(),
                        row@ == first + current@.take(step as int),
                    decreases current@.len() - step,
                {
                    row.push(current[step]);
                    proof {
                        assert(current@.take(step + 1) =~= current@.take(step as int).push(
                            current@[step as int],
                        ));
                        assert(row@ =~= first + current@.take(step + 1));
                    }
                    step = step + 1;
                }
                assert(current@.take(step as int) =~= current@);
                proof {
                    assert forall|n: NetId| #[trigger]
                        nets@.contains(n) <==> n.0 < self.graph.design.nets@.len() && touches_net(
                            self.graph.design,
                            cells@,
                            n.0 as int,
                        ) by {
                        self.lemma_touches_either(
                            unit.cells@,
                            with.cells@,
                            n.0 as int,
                        );
                        assert(self.incidents@[moving as int].nets@.contains(n) <==> n.0
                            < self.graph.design.nets@.len() && touches_net(
                            self.graph.design,
                            unit.cells@,
                            n.0 as int,
                        ));
                        assert(self.incidents@[other as int].nets@.contains(n) <==> n.0
                            < self.graph.design.nets@.len() && touches_net(
                            self.graph.design,
                            with.cells@,
                            n.0 as int,
                        ));
                    }
                    assert forall|i: usize| #[trigger]
                        listed@.contains(i) <==> i < self.arcs@.len() && touches_arc(
                            self.graph,
                            cells@,
                            self.arcs@[i as int],
                        ) by {
                        assert(self.incidents@[moving as int].timing_arcs@.contains(i) <==> i
                            < self.arcs@.len() && touches_arc(
                            self.graph,
                            unit.cells@,
                            self.arcs@[i as int],
                        ));
                        assert(self.incidents@[other as int].timing_arcs@.contains(i) <==> i
                            < self.arcs@.len() && touches_arc(
                            self.graph,
                            with.cells@,
                            self.arcs@[i as int],
                        ));
                        let arc = self.arcs@[i as int].arc;
                        let driver = crate::net_span::driver_cell(
                            self.graph.design,
                            arc.net.0 as int,
                        );
                        let sink = crate::targets::sink_cell(self.graph, arc);
                        lemma_in_either(unit.cells@, with.cells@, driver);
                        lemma_in_either(unit.cells@, with.cells@, sink);
                    }
                }
            },
        }
        MoveScope { cells, row, nets, listed }
    }

    /// A net touches the cells of either list.
    proof fn lemma_touches_either(&self, a: Seq<CellId>, b: Seq<CellId>, net: int)
        ensures
            touches_net(self.graph.design, a + b, net) <==> touches_net(self.graph.design, a, net)
                || touches_net(self.graph.design, b, net),
    {
        let design = self.graph.design;
        let ends = net_cells(design, net);
        if touches_net(design, a + b, net) {
            let k = choose|k: int|
                0 <= k < net_cells(design, net).len() && (a + b).contains(
                    #[trigger] net_cells(design, net)[k],
                );
            lemma_in_either(a, b, ends[k]);
            if a.contains(net_cells(design, net)[k]) {
            } else {
                assert(b.contains(net_cells(design, net)[k]));
            }
        }
        if touches_net(design, a, net) {
            let k = choose|k: int|
                0 <= k < net_cells(design, net).len() && a.contains(
                    #[trigger] net_cells(design, net)[k],
                );
            lemma_in_either(a, b, ends[k]);
            assert((a + b).contains(net_cells(design, net)[k]));
        }
        if touches_net(design, b, net) {
            let k = choose|k: int|
                0 <= k < net_cells(design, net).len() && b.contains(
                    #[trigger] net_cells(design, net)[k],
                );
            lemma_in_either(a, b, ends[k]);
            assert((a + b).contains(net_cells(design, net)[k]));
        }
    }

    /// The best move is one of those evaluated.
    pub open spec fn is_evaluated(
        &self,
        detailed: DetailedState,
        moving: int,
        normalizer: (u128, u128),
        costs: Map<usize, MoveCosts>,
        best: BestMove,
    ) -> bool {
        let placed = detailed.state.placed@;
        &&& self.is_scope(placed, moving, best.choice as int, best.partner, best.scope)
        &&& best.found.prices@.len() == best.scope.listed@.len()
        &&& costs[best.choice] == Some(
            patched(detailed.timing_arcs@, best.scope.listed@, best.found.prices@),
        )
        &&& best.found.totals.0 == bbox_total(
            self.graph,
            self.trial(placed, moving, best.choice as int, best.partner),
        )
        &&& best.found.totals.1 == timing_total(
            patched(detailed.timing_arcs@, best.scope.listed@, best.found.prices@),
        )
        &&& self.score(placed, moving, best.choice, best.partner, costs[best.choice], normalizer)
            == Some(best.value)
    }

    /// Evaluates the offered moves and picks the best.
    pub(crate) fn pick_best(
        &self,
        moving: usize,
        current: &Vec<BelId>,
        moves: &OrderedMap<usize, Option<usize>>,
        detailed: &DetailedState,
        workspace: &mut DetailedBoundingBoxDeltaWorkspace,
        normalizer: (u128, u128),
        bound: u128,
    ) -> (result: (Option<BestMove>, Ghost<Map<usize, MoveCosts>>))
        requires
            self.wf(),
            detailed.holds(self),
            old(workspace).wf(self.graph.design.nets@.len() as int),
            moving < self.units@.len(),
            current@ == row_of(self.units@[moving as int], detailed.state.placed@),
            moves.wf(),
            forall|c: usize, p: Option<usize>| #[trigger]
                self.is_offered(detailed.state.placed@, moving as int, c as int, p) ==> (
                moves@.contains_key(c) && moves@[c] == p),
            forall|c: usize| #[trigger]
                moves@.contains_key(c) ==> self.is_offered(
                    detailed.state.placed@,
                    moving as int,
                    c as int,
                    moves@[c],
                ),
        ensures
            final(workspace).wf(self.graph.design.nets@.len() as int),
            self.evaluates(
                detailed.state.placed@,
                detailed.timing_arcs@,
                moving as int,
                result.1@,
            ),
            match result.0 {
                None => self.none_lowers(
                    detailed.state.placed@,
                    moving as int,
                    result.1@,
                    normalizer,
                    bound,
                ),
                Some(best) => self.is_best(
                    detailed.state.placed@,
                    moving as int,
                    result.1@,
                    normalizer,
                    bound,
                    best.choice,
                    best.partner,
                ) && self.is_evaluated(*detailed, moving as int, normalizer, result.1@, best),
            },
    {
        let ghost placed = detailed.state.placed@;
        let ghost timing = detailed.timing_arcs@;
        let ghost keys = moves.ordered();
        let ghost mut costs: Map<usize, MoveCosts> = Map::empty();
        let mut best: Option<BestMove> = None;
        let mut at: usize = 0;
        while at < moves.len()
            invariant
                at <= keys.len(),
                keys == moves.ordered(),
                moves.wf(),
                self.wf(),
                detailed.holds(self),
                placed == detailed.state.placed@,
                timing == detailed.timing_arcs@,
                workspace.wf(self.graph.design.nets@.len() as int),
                moving < self.units@.len(),
                current@ == row_of(self.units@[moving as int], placed),
                forall|c: usize| #[trigger]
                    moves@.contains_key(c) ==> self.is_offered(
                        placed,
                        moving as int,
                        c as int,
                        moves@[c],
                    ),
                forall|k: int|
                    0 <= k < at ==> self.is_evaluation(
                        timing,
                        self.trial(
                            placed,
                            moving as int,
                            keys[k] as int,
                            moves@[#[trigger] keys[k]],
                        ),
                        self.moved_cells(moving as int, moves@[keys[k]]),
                        costs[keys[k]],
                    ),
                match best {
                    None => forall|k: int|
                        0 <= k < at ==> (self.score(
                            placed,
                            moving as int,
                            #[trigger] keys[k],
                            moves@[keys[k]],
                            costs[keys[k]],
                            normalizer,
                        ) matches Some(value) ==> value >= bound),
                    Some(known) => {
                        &&& self.is_evaluated(
                            *detailed,
                            moving as int,
                            normalizer,
                            costs,
                            known,
                        )
                        &&& known.value < bound
                        &&& moves@.contains_key(known.choice)
                        &&& known.partner == moves@[known.choice]
                        &&& exists|k: int| 0 <= k < at && #[trigger] keys[k] == known.choice
                        &&& forall|k: int|
                            0 <= k < at ==> self.yields(
                                placed,
                                moving as int,
                                costs,
                                normalizer,
                                #[trigger] keys[k],
                                moves@[keys[k]],
                                known.value,
                                known.choice,
                            )
                    },
                },
            decreases keys.len() - at,
        {
            let choice: usize = moves.key_at(at);
            let partner: Option<usize> = *moves.value_at(at);
            proof {
                moves.entry(at as int);
                assert(moves@.contains_key(choice));
                assert(self.is_offered(placed, moving as int, choice as int, partner));
                self.lemma_offered(placed, moving as int, choice as int, partner);
                detailed.lemma_complete(self);
                self.lemma_moved(placed, moving as int, choice as int, partner);
                assert forall|k: int| 0 <= k < at implies #[trigger] keys[k] != choice by {
                    assert(keys[k].rank() < keys[at as int].rank());
                }
            }
            let scope = self.gather(moving, choice, partner, current, Ghost(placed));
            let found = self.evaluate(
                &scope.cells,
                &scope.row,
                &scope.nets,
                &scope.listed,
                detailed,
                workspace,
            );
            let ghost before = costs;
            let ghost outcome: MoveCosts = if found is Some {
                Some(patched(timing, scope.listed@, found->0.prices@))
            } else {
                None
            };
            proof {
                costs = costs.insert(choice, outcome);
                assert(self.is_evaluation(
                    timing,
                    self.trial(placed, moving as int, choice as int, partner),
                    self.moved_cells(moving as int, partner),
                    outcome,
                ));
                assert forall|k: int| 0 <= k < at implies costs[#[trigger] keys[k]]
                    == before[keys[k]] by {}
            }
            let ghost previous = best;
            let mut updated = false;
            if let Some(found) = found {
                if let Some(value) = detailed_placement_objective(found.totals, normalizer) {
                    assert(self.score(
                        placed,
                        moving as int,
                        choice,
                        partner,
                        costs[choice],
                        normalizer,
                    ) == Some(value));
                    let lower = match &best {
                        None => value < bound,
                        Some(known) => value < known.value,
                    };
                    if lower {
                        best = Some(BestMove { value, choice, partner, scope, found });
                        updated = true;
                    }
                }
            }
            proof {
                assert forall|k: int| 0 <= k < at + 1 implies self.is_evaluation(
                    timing,
                    self.trial(
                        placed,
                        moving as int,
                        keys[k] as int,
                        moves@[#[trigger] keys[k]],
                    ),
                    self.moved_cells(moving as int, moves@[keys[k]]),
                    costs[keys[k]],
                ) by {
                    if k < at {
                        assert(costs[keys[k]] == before[keys[k]]);
                    }
                }
                if updated {
                    let now = best->0;
                    assert(keys[at as int] == now.choice);
                    assert forall|k: int| 0 <= k < at + 1 implies self.yields(
                        placed,
                        moving as int,
                        costs,
                        normalizer,
                        #[trigger] keys[k],
                        moves@[keys[k]],
                        now.value,
                        now.choice,
                    ) by {
                        if k < at {
                            assert(costs[keys[k]] == before[keys[k]]);
                            if previous is Some {
                                assert(self.yields(
                                    placed,
                                    moving as int,
                                    before,
                                    normalizer,
                                    keys[k],
                                    moves@[keys[k]],
                                    previous->0.value,
                                    previous->0.choice,
                                ));
                            }
                        }
                    }
                } else {
                    if best is Some {
                        let value = best->0.value;
                        let first = best->0.choice;
                            let j = choose|k: int|
                                0 <= k < at && #[trigger] keys[k] == first;
                            assert(keys[j].rank() < keys[at as int].rank());
                            assert(costs[keys[j]] == before[keys[j]]);
                            assert forall|k: int| 0 <= k < at + 1 implies self.yields(
                                placed,
                                moving as int,
                                costs,
                                normalizer,
                                #[trigger] keys[k],
                                moves@[keys[k]],
                                value,
                                first,
                            ) by {
                                if k < at {
                                    assert(costs[keys[k]] == before[keys[k]]);
                                    assert(self.yields(
                                        placed,
                                        moving as int,
                                        before,
                                        normalizer,
                                        keys[k],
                                        moves@[keys[k]],
                                        value,
                                        first,
                                    ));
                                }
                            }
                            assert(keys[j] == first);
                    }
                }
            }
            at = at + 1;
        }
        proof {
            assert forall|c: usize, p: Option<usize>| #[trigger]
                self.is_offered(placed, moving as int, c as int, p) implies self.is_evaluation(
                timing,
                self.trial(placed, moving as int, c as int, p),
                self.moved_cells(moving as int, p),
                costs[c],
            ) by {
                let k = moves.key_index(c);
                assert(keys[k] == c);
            }
            if best is None {
                    assert forall|c: usize, p: Option<usize>| #[trigger]
                        self.is_offered(placed, moving as int, c as int, p) implies (self.score(
                        placed,
                        moving as int,
                        c,
                        p,
                        costs[c],
                        normalizer,
                    ) matches Some(value) ==> value >= bound) by {
                        let k = moves.key_index(c);
                        assert(keys[k] == c);
                    }
            } else {
                let value = best->0.value;
                let first = best->0.choice;
                    assert forall|c: usize, p: Option<usize>| #[trigger]
                        self.is_offered(placed, moving as int, c as int, p) implies self.yields(
                        placed,
                        moving as int,
                        costs,
                        normalizer,
                        c,
                        p,
                        value,
                        first,
                    ) by {
                        let k = moves.key_index(c);
                        assert(keys[k] == c);
                    }
                    assert(self.is_offered(
                        placed,
                        moving as int,
                        first as int,
                        best->0.partner,
                    ));
            }
        }
        (best, Ghost(costs))
    }

    /// An offered move is one of the unit's choices, and can be made.
    pub proof fn lemma_offered(
        &self,
        placed: Seq<Option<BelId>>,
        moving: int,
        choice: int,
        partner: Option<usize>,
    )
        requires
            self.is_offered(placed, moving, choice, partner),
        ensures
            0 <= choice < self.units@[moving].choices.count(),
            self.is_destination(
                placed,
                moving,
                self.units@[moving].choices.row(choice),
                partner,
            ),
            self.is_legal_move(
                placed,
                moving,
                self.units@[moving].choices.row(choice),
                partner,
            ),
    {
        let target = choose|target: crate::model::Point|
            self.pulls(placed, moving, target) && #[trigger] self.is_nearest_usable(
                placed,
                moving,
                target,
                choice,
                partner,
            );
        assert(self.is_usable(placed, moving, target, choice, partner));
    }
}

/// A joined list holds what either list holds.
proof fn lemma_in_either(a: Seq<CellId>, b: Seq<CellId>, cell: CellId)
    ensures
        (a + b).contains(cell) <==> a.contains(cell) || b.contains(cell),
{
    if a.contains(cell) {
        let k = a.index_of(cell);
        assert((a + b)[k] == cell);
    }
    if b.contains(cell) {
        let k = b.index_of(cell);
        assert((a + b)[a.len() + k] == cell);
    }
    if (a + b).contains(cell) {
        let k = (a + b).index_of(cell);
        if k < a.len() {
            assert(a[k] == cell);
        } else {
            assert(b[k - a.len()] == cell);
        }
    }
}

} // verus!
