//! Moves that detailed placement offers a unit.

use vstd::prelude::*;

use crate::candidates::can_hold;
use crate::detail::{row_of, tracks_owners, DetailedProblem};
use crate::device::Device;
use crate::legality::{legal_row_keeps_placement_legal, lemma_cleared};
use crate::families::lemma_family_rows;
use crate::model::{BelId, CellId, NetId, Point};
use crate::ordered::{increasing, lower_bound, same_keys, OrderedMap, OrderedSet};
use crate::placement_state::{all_apart, row_is_free, PlacementState};
use crate::refiner::PlacementDelayEstimator;
use crate::spatial::{
    begins_at, choice_point, choices_on_device, lemma_device_span, lemma_listed_ring,
    listed_before, ring_points, tile, SpatialChoiceIndex,
};
use crate::standing::{stands, stands_on, units_stand};
use crate::units::{row_fits, PlacementChoices};
use crate::usage_model::{
    cells_in_range, lemma_row_restores, lemma_with_row, lemma_without_cells, with_row,
    without_cells,
};

verus! {

/// Choices that begin at a distance from the tile.
fn ring_choices(
    index: &SpatialChoiceIndex,
    center: Point,
    radius: u32,
    device: &Device,
    Ghost(choices): Ghost<PlacementChoices>,
) -> (result: OrderedSet<usize>)
    requires
        device.wf(),
        choices_on_device(choices, device),
        index.indexes(choices, device),
    ensures
        result.wf(),
        forall|i: usize| #[trigger]
            result@.contains(i) <==> i < choices.count() && choice_point(
                choices,
                device,
                i as int,
            ).distance(center) == radius,
{
    let points = ring_points(center, radius, device);
    let mut result: OrderedSet<usize> = OrderedSet::new();
    let mut at: usize = 0;
    while at < points.len()
        invariant
            at <= points@.len(),
            device.wf(),
            index.indexes(choices, device),
            forall|p: Point| #[trigger]
                points@.contains(p) <==> device.holds(p) && p.distance(center) == radius,
            result.wf(),
            forall|i: usize| #[trigger]
                result@.contains(i) <==> listed_before(
                    choices,
                    device,
                    points@,
                    at as int,
                    i as int,
                ),
        decreases points@.len() - at,
    {
        let point = points[at];
        assert(points@.contains(point));
        let ghost middle = result@;
        let bucket = index.at(device, point);
        result.extend(bucket.as_slice());
        proof {
            assert forall|i: usize| #[trigger] result@.contains(i) <==> listed_before(
                choices,
                device,
                points@,
                at + 1,
                i as int,
            ) by {
                assert(middle.contains(i) <==> listed_before(
                    choices,
                    device,
                    points@,
                    at as int,
                    i as int,
                ));
                assert(bucket@.to_set().contains(i) <==> bucket@.contains(i));
                assert(index.by_point@[tile(device, point)]@.contains(i) <==> begins_at(
                    choices,
                    device,
                    i as int,
                    point,
                ));
                if listed_before(choices, device, points@, at as int, i as int) {
                    let k = choose|k: int|
                        0 <= k < at && begins_at(choices, device, i as int, #[trigger] points@[k]);
                    assert(begins_at(choices, device, i as int, points@[k]));
                }
                if begins_at(choices, device, i as int, point) {
                    assert(begins_at(choices, device, i as int, points@[at as int]));
                }
                if listed_before(choices, device, points@, at + 1, i as int) {
                    let k = choose|k: int|
                        0 <= k < at + 1 && begins_at(
                            choices,
                            device,
                            i as int,
                            #[trigger] points@[k],
                        );
                    if k < at {
                        assert(begins_at(choices, device, i as int, points@[k]));
                    }
                }
            }
        }
        at = at + 1;
    }
    proof {
        assert forall|i: usize| #[trigger] result@.contains(i) <==> i < choices.count()
            && choice_point(choices, device, i as int).distance(center) == radius by {
            lemma_listed_ring(choices, device, center, radius as int, points@, i as int);
        }
    }
    result
}

/// Whether two increasing lists have a net in common.
fn lists_meet(a: &Vec<NetId>, b: &Vec<NetId>) -> (result: bool)
    requires
        increasing(b@),
    ensures
        result == exists|n: NetId| #[trigger] a@.contains(n) && b@.contains(n),
{
    let mut at: usize = 0;
    while at < a.len()
        invariant
            at <= a@.len(),
            increasing(b@),
            forall|k: int| 0 <= k < at ==> !b@.contains(#[trigger] a@[k]),
        decreases a@.len() - at,
    {
        let net = a[at];
        let place: usize = lower_bound(b, net);
        if place < b.len() && b[place].0 == net.0 {
            proof {
                assert(b@[place as int] == net);
                assert(a@.contains(net) && b@.contains(net));
            }
            return true;
        }
        proof {
            assert(!b@.contains(net)) by {
                if b@.contains(net) {
                    assert(b@[place as int] == net);
                }
            }
        }
        at = at + 1;
    }
    proof {
        assert forall|n: NetId| #[trigger] a@.contains(n) implies !b@.contains(n) by {
            let k = a@.index_of(n);
            assert(a@[k] == n);
        }
    }
    false
}

impl<'a, E: PlacementDelayEstimator> DetailedProblem<'a, E> {
    /// The unit is taken out of a complete, legal placement.
    pub open spec fn is_lifted(
        &self,
        full: Seq<Option<BelId>>,
        moving: int,
        state: PlacementState,
    ) -> bool {
        &&& 0 <= moving < self.units@.len()
        &&& full.len() == self.graph.design.cells@.len()
        &&& all_apart(full)
        &&& units_stand(self.units@, full)
        &&& state.wf(self.graph, self.constraints)
        &&& state.placed@ == without_cells(full, self.units@[moving].cells@)
    }

    /// Facts about a unit that is taken out, and another one.
    proof fn lemma_lifted(&self, full: Seq<Option<BelId>>, moving: int, other: int)
        requires
            self.wf(),
            0 <= moving < self.units@.len(),
            0 <= other < self.units@.len(),
            other != moving,
            full.len() == self.graph.design.cells@.len(),
            units_stand(self.units@, full),
        ensures
            cells_in_range(self.units@[moving].cells@, full.len() as int),
            cells_in_range(self.units@[other].cells@, full.len() as int),
            self.units@[moving].cells@.no_duplicates(),
            self.units@[other].cells@.no_duplicates(),
            ({
                let lifted = without_cells(full, self.units@[moving].cells@);
                let others = self.units@[other].cells@;
                &&& lifted.len() == full.len()
                &&& forall|k: int|
                    0 <= k < self.units@[moving].cells@.len() ==> lifted[(
                    #[trigger] self.units@[moving].cells@[k]).0 as int] is None
                &&& forall|k: int|
                    0 <= k < others.len() ==> (#[trigger] others[k]).0 < lifted.len()
                        && lifted[others[k].0 as int] == Some(
                        row_of(self.units@[other], full)[k],
                    )
                &&& forall|k: int|
                    0 <= k < others.len() ==> !self.units@[moving].cells@.contains(
                        #[trigger] others[k],
                    )
            }),
    {
        let cells = self.units@[moving].cells@;
        let others = self.units@[other].cells@;
        let lifted = without_cells(full, cells);
        assert(self.units@[moving].wf(self.graph, self.constraints));
        assert(self.units@[other].wf(self.graph, self.constraints));
        lemma_without_cells(full, cells);
        assert(stands(self.units@[other], full));
        let i = choose|i: int| #[trigger] stands_on(self.units@[other], full, i);
        assert forall|k: int| 0 <= k < others.len() implies (#[trigger] others[k]).0 < lifted.len()
            && lifted[others[k].0 as int] == Some(row_of(self.units@[other], full)[k])
            && !cells.contains(others[k]) by {
            let cell = others[k];
            assert(CellId((cell.0 as int) as usize) == cell);
            if cells.contains(cell) {
                let l = cells.index_of(cell);
                assert(self.units@[moving].cells@[l] == self.units@[other].cells@[k]);
            }
            assert(lifted[cell.0 as int] == full[cell.0 as int]);
            assert(full[self.units@[other].cells@[k].0 as int] == Some(
                self.units@[other].choices.row(i)[k],
            ));
        }
    }

    /// Whether resources allow the move, or the swap.
    fn detailed_candidate_is_legal(
        &self,
        moving: usize,
        current: &Vec<BelId>,
        row: &Vec<BelId>,
        partner: Option<usize>,
        state: &mut PlacementState,
        Ghost(full): Ghost<Seq<Option<BelId>>>,
    ) -> (result: bool)
        requires
            self.wf(),
            self.is_lifted(full, moving as int, *old(state)),
            current@ == row_of(self.units@[moving as int], full),
            row_fits(self.graph, self.constraints, self.units@[moving as int].cells@, row@),
            self.is_destination(full, moving as int, row@, partner),
        ensures
            self.is_lifted(full, moving as int, *final(state)),
            result == self.is_legal_move(full, moving as int, row@, partner),
    {
        let unit = &self.units[moving];
        let ghost lifted = state.placed@;
        assert(self.units@[moving as int].wf(self.graph, self.constraints));
        assert(self.graph.design.cells.len() == self.graph.design.cells@.len());
        proof {
            assert(cells_in_range(unit.cells@, full.len() as int));
            lemma_without_cells(full, unit.cells@);
        }
        let other: usize = match partner {
            None => {
                return state.is_legal(&self.graph, self.constraints, &unit.cells, row);
            },
            Some(other) => other,
        };
        let swapped = &self.units[other];
        proof {
            self.lemma_lifted(full, moving as int, other as int);
            assert forall|k: int| 0 <= k < swapped.cells@.len() implies lifted[(
            #[trigger] swapped.cells@[k]).0 as int] == Some(row@[k]) by {
                assert(lifted[self.units@[other as int].cells@[k].0 as int] == Some(
                    row_of(self.units@[other as int], full)[k],
                ));
            }
            lemma_family_rows(
                self.graph,
                self.constraints,
                self.units@,
                self.families@,
                other as int,
                moving as int,
            );
            assert(swapped.cells@.len() == row@.len()) by {
                assert(row_of(*swapped, full).len() == swapped.cells@.len());
            }
        }
        state.take_row(&self.graph, self.constraints, &swapped.cells, row);
        let ghost empty = state.placed@;
        proof {
            lemma_without_cells(lifted, swapped.cells@);
            lemma_row_restores(lifted, swapped.cells@, row@);
            legal_row_keeps_placement_legal(
                self.graph,
                self.constraints,
                empty,
                swapped.cells@,
                row@,
            );
            assert forall|k: int| 0 <= k < unit.cells@.len() implies empty[(
            #[trigger] unit.cells@[k]).0 as int] is None by {
                let cell = unit.cells@[k];
                assert(CellId((cell.0 as int) as usize) == cell);
                assert(lifted[self.units@[moving as int].cells@[k].0 as int] is None);
                if swapped.cells@.contains(cell) {
                    let l = swapped.cells@.index_of(cell);
                    assert(empty[swapped.cells@[l].0 as int] is None);
                } else {
                    assert(empty[cell.0 as int] == lifted[cell.0 as int]);
                }
            }
        }
        let first = state.is_legal(&self.graph, self.constraints, &unit.cells, row);
        let mut second = false;
        if first {
            state.put_row(&self.graph, self.constraints, &unit.cells, row);
            proof {
                lemma_with_row(empty, unit.cells@, row@);
                assert forall|k: int| 0 <= k < swapped.cells@.len() implies state.placed@[(
                #[trigger] swapped.cells@[k]).0 as int] is None by {
                    let cell = swapped.cells@[k];
                    assert(CellId((cell.0 as int) as usize) == cell);
                    assert(!self.units@[moving as int].cells@.contains(
                        self.units@[other as int].cells@[k],
                    ));
                    assert(state.placed@[cell.0 as int] == empty[cell.0 as int]);
                }
                assert(current@.len() == swapped.cells@.len()) by {
                    assert(row_of(*unit, full).len() == unit.cells@.len());
                    assert(row@.len() == unit.cells@.len());
                }
            }
            second = state.is_legal(&self.graph, self.constraints, &swapped.cells, current);
            proof {
                assert forall|k: int| 0 <= k < unit.cells@.len() implies state.placed@[(
                #[trigger] unit.cells@[k]).0 as int] == Some(row@[k]) by {
                    assert(with_row(empty, unit.cells@, row@)[unit.cells@[k].0 as int] == Some(
                        row@[k],
                    ));
                }
            }
            state.take_row(&self.graph, self.constraints, &unit.cells, row);
            proof {
                lemma_cleared(empty, unit.cells@, row@);
                assert(state.placed@ == empty);
            }
        }
        proof {
            assert(row_is_free(state.occupied@, row@));
            assert(row_fits(
                self.graph,
                self.constraints,
                self.units@[moving as int].cells@,
                row@,
            ));
        }
        state.put_row(&self.graph, self.constraints, &swapped.cells, row);
        assert(state.placed@ == lifted);
        second
    }

    /// Whether the unit may be offered the choice around the target, and whom
    /// it swaps with.
    fn classify(
        &self,
        moving: usize,
        current: &Vec<BelId>,
        target: Point,
        choice: usize,
        state: &mut PlacementState,
        owners: &Vec<Option<usize>>,
        Ghost(full): Ghost<Seq<Option<BelId>>>,
    ) -> (result: Option<Option<usize>>)
        requires
            self.wf(),
            self.is_lifted(full, moving as int, *old(state)),
            current@ == row_of(self.units@[moving as int], full),
            choice < self.units@[moving as int].choices.count(),
            owners@.len() == self.graph.device.bels@.len(),
            tracks_owners(self.units@, full, owners@),
        ensures
            self.is_lifted(full, moving as int, *final(state)),
            match result {
                Some(partner) => self.is_usable(
                    full,
                    moving as int,
                    target,
                    choice as int,
                    partner,
                ),
                None => forall|partner: Option<usize>|
                    !#[trigger] self.is_usable(
                        full,
                        moving as int,
                        target,
                        choice as int,
                        partner,
                    ),
            },
    {
        let unit = &self.units[moving];
        let row = unit.choices.assignment(choice);
        if same_keys(&row, current) {
            return None;
        }
        proof {
            assert(self.units@[moving as int].wf(self.graph, self.constraints));
            assert(row_fits(
                self.graph,
                self.constraints,
                unit.cells@,
                unit.choices.row(choice as int),
            ));
            assert forall|k: int| 0 <= k < row@.len() implies (#[trigger] row@[k]).0
                < self.graph.device.bels@.len() by {
                assert(can_hold(self.graph, self.constraints, unit.cells@[k], row@[k]));
            }
        }
        let partner = match self.find_destination(
            moving,
            &row,
            &state.placed,
            owners,
            Ghost(full),
        ) {
            Some(partner) => partner,
            None => {
                proof {
                    assert forall|p: Option<usize>|
                        !#[trigger] self.is_usable(
                            full,
                            moving as int,
                            target,
                            choice as int,
                            p,
                        ) by {
                        assert(!self.is_destination(full, moving as int, row@, p));
                    }
                }
                return None;
            },
        };
        proof {
            assert forall|p: Option<usize>| #[trigger]
                self.is_usable(full, moving as int, target, choice as int, p) implies p
                == partner by {
                self.lemma_one_partner(full, moving as int, row@, p, partner);
            }
        }
        let point = self.graph.device().bels[row[0].0].point;
        let mut idle = false;
        if let Some(other) = partner {
            assert(is_incident_of(self, other as int));
            if point.x == target.x && point.y == target.y {
                idle = lists_meet(&self.incidents[moving].nets, &self.incidents[other].nets);
            }
        }
        if idle {
            assert(partner is Some);
            assert(self.share_net(moving as int, partner->0 as int));
            return None;
        }
        let legal = self.detailed_candidate_is_legal(
            moving,
            current,
            &row,
            partner,
            state,
            Ghost(full),
        );
        if legal {
            assert(self.is_usable(full, moving as int, target, choice as int, partner));
            Some(partner)
        } else {
            None
        }
    }
}

/// The incident of a unit is in order.
spec fn is_incident_of<E: PlacementDelayEstimator>(
    problem: &DetailedProblem<'_, E>,
    unit: int,
) -> bool {
    crate::incidents::is_incident(
        problem.graph,
        problem.units@[unit].cells@,
        problem.arcs@,
        problem.incidents@[unit],
    )
}

impl<'a, E: PlacementDelayEstimator> DetailedProblem<'a, E> {
    /// Distance of a choice from the target.
    pub open spec fn choice_distance(&self, moving: int, choice: int, target: Point) -> int {
        choice_point(self.units@[moving].choices, self.graph.device, choice).distance(target)
    }

    /// The choice is one of the usable ones nearest to the target.
    pub open spec fn is_nearest_usable(
        &self,
        placed: Seq<Option<BelId>>,
        moving: int,
        target: Point,
        choice: int,
        partner: Option<usize>,
    ) -> bool {
        &&& self.is_usable(placed, moving, target, choice, partner)
        &&& forall|c: int, p: Option<usize>| #[trigger]
            self.is_usable(placed, moving, target, c, p) ==> self.choice_distance(
                moving,
                choice,
                target,
            ) <= self.choice_distance(moving, c, target)
    }

    /// The point is one that pulls the unit.
    pub open spec fn pulls(&self, placed: Seq<Option<BelId>>, moving: int, target: Point) -> bool {
        crate::targets::is_target(
            self.graph,
            self.units@[moving].cells@,
            self.incidents@[moving].nets@,
            self.arcs@,
            self.incidents@[moving].timing_arcs@,
            placed,
            target,
        )
    }

    /// The unit is offered the move: it is one of the nearest usable ones
    /// around a point that pulls the unit.
    pub open spec fn is_offered(
        &self,
        placed: Seq<Option<BelId>>,
        moving: int,
        choice: int,
        partner: Option<usize>,
    ) -> bool {
        exists|target: Point|
            self.pulls(placed, moving, target) && #[trigger] self.is_nearest_usable(
                placed,
                moving,
                target,
                choice,
                partner,
            )
    }

    /// The map names moves by their choices.
    pub open spec fn names_moves(
        &self,
        placed: Seq<Option<BelId>>,
        moving: int,
        found: Map<usize, Option<usize>>,
    ) -> bool {
        forall|c: usize| #[trigger]
            found.contains_key(c) ==> c < self.units@[moving].choices.count()
                && self.is_destination(
                placed,
                moving,
                self.units@[moving].choices.row(c as int),
                found[c],
            )
    }

    /// Adds the nearest usable choices around the target.
    ///
    /// The search spans the finite device and lets a unit cross an arbitrarily
    /// wide basin. A ring that holds only fixed, multiply occupied, or
    /// shared-resource-incompatible choices is skipped. The whole first usable
    /// ring is taken, which keeps equivalent same-tile BELs available for empty
    /// moves and compatible swaps.
    pub(crate) fn visit_spatial_choices_on_nearest_usable_ring(
        &self,
        moving: usize,
        current: &Vec<BelId>,
        target: Point,
        state: &mut PlacementState,
        owners: &Vec<Option<usize>>,
        found: &mut OrderedMap<usize, Option<usize>>,
        Ghost(full): Ghost<Seq<Option<BelId>>>,
    )
        requires
            self.wf(),
            self.is_lifted(full, moving as int, *old(state)),
            current@ == row_of(self.units@[moving as int], full),
            self.graph.device.holds(target),
            owners@.len() == self.graph.device.bels@.len(),
            tracks_owners(self.units@, full, owners@),
            old(found).wf(),
            self.names_moves(full, moving as int, old(found)@),
        ensures
            self.is_lifted(full, moving as int, *final(state)),
            final(found).wf(),
            self.names_moves(full, moving as int, final(found)@),
            forall|c: usize| #[trigger]
                final(found)@.contains_key(c) <==> old(found)@.contains_key(c) || exists|
                    p: Option<usize>,
                | #[trigger]
                    self.is_nearest_usable(full, moving as int, target, c as int, p),
    {
        let device = self.graph.device();
        let unit = &self.units[moving];
        let span: u64 = (device.width as u64) + (device.height as u64);
        proof {
            assert(2 <= span <= u32::MAX + 1) by (nonlinear_arith)
                requires
                    span == device.width + device.height,
                    device.width >= 1,
                    device.height >= 1,
                    device.width * device.height <= u32::MAX,
            ;
            assert(self.units@[moving as int].wf(self.graph, self.constraints));
            assert(choices_on_device(unit.choices, device)) by {
                assert forall|i: int| 0 <= i < unit.choices.count() implies (
                #[trigger] unit.choices.row(i)).len() > 0 && unit.choices.row(i)[0].0
                    < device.bels@.len() by {
                    assert(row_fits(
                        self.graph,
                        self.constraints,
                        unit.cells@,
                        unit.choices.row(i),
                    ));
                    assert(can_hold(
                        self.graph,
                        self.constraints,
                        unit.cells@[0],
                        unit.choices.row(i)[0],
                    ));
                }
            }
            assert(self.spatial@[moving as int].indexes(
                self.units@[moving as int].choices,
                device,
            ));
        }
        let ghost known = found@;
        let mut radius: u64 = 0;
        while radius < span
            invariant
                radius <= span,
                2 <= span <= u32::MAX + 1,
                span == device.width + device.height,
                self.wf(),
                device == self.graph.device,
                moving < self.units@.len(),
                *unit == self.units@[moving as int],
                self.is_lifted(full, moving as int, *state),
                current@ == row_of(self.units@[moving as int], full),
                device.holds(target),
                owners@.len() == device.bels@.len(),
                tracks_owners(self.units@, full, owners@),
                choices_on_device(unit.choices, device),
                self.spatial@[moving as int].indexes(unit.choices, device),
                found.wf(),
                found@ == known,
                known == old(found)@,
                self.names_moves(full, moving as int, known),
                forall|c: int, p: Option<usize>| #[trigger]
                    self.is_usable(full, moving as int, target, c, p) ==> self.choice_distance(
                        moving as int,
                        c,
                        target,
                    ) >= radius,
            decreases span - radius,
        {
            let ring = ring_choices(
                &self.spatial[moving],
                target,
                radius as u32,
                device,
                Ghost(unit.choices),
            );
            let mut usable = false;
            let mut at: usize = 0;
            let ghost listed = ring.ordered();
            assert(self.spatial.len() == self.spatial@.len());
            while at < ring.len()
                invariant
                    at <= listed.len(),
                    listed == ring.ordered(),
                    ring.wf(),
                    self.wf(),
                    device == self.graph.device,
                    moving < self.units@.len(),
                    *unit == self.units@[moving as int],
                    self.is_lifted(full, moving as int, *state),
                    current@ == row_of(self.units@[moving as int], full),
                    owners@.len() == device.bels@.len(),
                    tracks_owners(self.units@, full, owners@),
                    forall|i: usize| #[trigger]
                        ring@.contains(i) <==> i < unit.choices.count() && choice_point(
                            unit.choices,
                            device,
                            i as int,
                        ).distance(target) == radius,
                    found.wf(),
                    self.names_moves(full, moving as int, known),
                    self.names_moves(full, moving as int, found@),
                    forall|c: usize| #[trigger]
                        found@.contains_key(c) <==> known.contains_key(c) || (exists|k: int|
                            0 <= k < at && #[trigger] listed[k] == c && self.can_use(
                                full,
                                moving as int,
                                target,
                                c as int,
                            )),
                    !usable ==> found@ == known,
                    usable <==> exists|k: int|
                        0 <= k < at && self.can_use(
                            full,
                            moving as int,
                            target,
                            #[trigger] listed[k] as int,
                        ),
                decreases listed.len() - at,
            {
                let choice: usize = ring.at(at);
                assert(ring@.contains(choice));
                let ghost before = found@;
                let verdict = self.classify(
                    moving,
                    current,
                    target,
                    choice,
                    state,
                    owners,
                    Ghost(full),
                );
                match verdict {
                    Some(partner) => {
                        assert(self.can_use(full, moving as int, target, choice as int));
                        found.insert(choice, partner);
                        usable = true;
                        assert(self.can_use(
                            full,
                            moving as int,
                            target,
                            listed[at as int] as int,
                        ));
                    },
                    None => {
                        assert(!self.can_use(full, moving as int, target, choice as int));
                    },
                }
                proof {
                    assert forall|c: usize| #[trigger]
                        found@.contains_key(c) <==> known.contains_key(c) || (exists|k: int|
                            0 <= k < at + 1 && #[trigger] listed[k] == c && self.can_use(
                                full,
                                moving as int,
                                target,
                                c as int,
                            )) by {
                        assert(before.contains_key(c) <==> known.contains_key(c) || (exists|k: int|
                            0 <= k < at && #[trigger] listed[k] == c && self.can_use(
                                full,
                                moving as int,
                                target,
                                c as int,
                            )));
                        if c == choice {
                            assert(listed[at as int] == c);
                        }
                    }
                }
                at = at + 1;
            }
            proof {
                assert forall|c: usize|
                    c < unit.choices.count() && self.choice_distance(
                        moving as int,
                        c as int,
                        target,
                    ) == radius implies exists|k: int|
                    0 <= k < listed.len() && #[trigger] listed[k] == c by {
                    assert(ring@.contains(c));
                    ring.membership(c);
                    let k = listed.index_of(c);
                    assert(listed[k] == c);
                }
                assert(unit.choices.count() <= usize::MAX) by {
                    lemma_count(unit.choices);
                }
            }
            if usable {
                proof {
                    let k = choose|k: int|
                        0 <= k < at && self.can_use(
                            full,
                            moving as int,
                            target,
                            #[trigger] listed[k] as int,
                        );
                    ring.membership(listed[k]);
                    assert(ring@.contains(listed[k]));
                    let p = choose|p: Option<usize>|
                        #[trigger] self.is_usable(
                            full,
                            moving as int,
                            target,
                            listed[k] as int,
                            p,
                        );
                    assert forall|c: usize| #[trigger]
                        found@.contains_key(c) <==> known.contains_key(c) || exists|
                            p: Option<usize>,
                        | #[trigger]
                            self.is_nearest_usable(
                                full,
                                moving as int,
                                target,
                                c as int,
                                p,
                            ) by {
                        if exists|i: int|
                            0 <= i < at && #[trigger] listed[i] == c && self.can_use(
                                full,
                                moving as int,
                                target,
                                c as int,
                            ) {
                            let i = choose|i: int|
                                0 <= i < at && #[trigger] listed[i] == c && self.can_use(
                                    full,
                                    moving as int,
                                    target,
                                    c as int,
                                );
                            ring.membership(listed[i]);
                            assert(ring@.contains(c));
                            let q = choose|q: Option<usize>|
                                #[trigger] self.is_usable(
                                    full,
                                    moving as int,
                                    target,
                                    c as int,
                                    q,
                                );
                            assert(self.is_nearest_usable(
                                full,
                                moving as int,
                                target,
                                c as int,
                                q,
                            ));
                        }
                        if exists|q: Option<usize>| #[trigger]
                            self.is_nearest_usable(full, moving as int, target, c as int, q) {
                            let q = choose|q: Option<usize>|
                                #[trigger] self.is_nearest_usable(
                                    full,
                                    moving as int,
                                    target,
                                    c as int,
                                    q,
                                );
                            assert(self.is_usable(full, moving as int, target, c as int, q));
                            assert(self.is_usable(
                                full,
                                moving as int,
                                target,
                                listed[k] as int,
                                p,
                            ));
                            assert(self.choice_distance(moving as int, c as int, target)
                                == radius);
                            assert(self.can_use(full, moving as int, target, c as int));
                            let i = choose|i: int|
                                0 <= i < listed.len() && #[trigger] listed[i] == c;
                            assert(listed[i] == c);
                        }
                    }
                }
                return ;
            }
            proof {
                assert forall|c: int, p: Option<usize>| #[trigger]
                    self.is_usable(full, moving as int, target, c, p) implies self.choice_distance(
                    moving as int,
                    c,
                    target,
                ) >= radius + 1 by {
                    if self.choice_distance(moving as int, c, target) == radius {
                        let id = c as usize;
                        assert(id == c);
                        let k = choose|k: int| 0 <= k < listed.len() && #[trigger] listed[k] == id;
                        assert(self.can_use(full, moving as int, target, listed[k] as int));
                    }
                }
            }
            radius = radius + 1;
        }
        proof {
            assert forall|c: usize, p: Option<usize>|
                !#[trigger] self.is_nearest_usable(
                    full,
                    moving as int,
                    target,
                    c as int,
                    p,
                ) by {
                if self.is_nearest_usable(full, moving as int, target, c as int, p) {
                    assert(self.is_usable(full, moving as int, target, c as int, p));
                    assert(unit.choices.row(c as int).len() > 0);
                    lemma_device_span(
                        device,
                        choice_point(unit.choices, device, c as int),
                        target,
                    );
                }
            }
        }
    }

    /// The choice is usable around the target.
    pub open spec fn can_use(
        &self,
        placed: Seq<Option<BelId>>,
        moving: int,
        target: Point,
        choice: int,
    ) -> bool {
        exists|p: Option<usize>| #[trigger] self.is_usable(placed, moving, target, choice, p)
    }
}

/// There are no more choices than a list can hold.
proof fn lemma_count(choices: PlacementChoices)
    ensures
        choices.count() <= usize::MAX,
{
    match choices {
        PlacementChoices::Shared(table) => {
            assert(table.len() == table@.len());
        },
        PlacementChoices::SingleCell(list) => {
            assert(list.len() == list@.len());
        },
    }
}

} // verus!
