//! Detailed placement: where a unit may move, and whom it may swap with.

use std::sync::Arc;

use vstd::prelude::*;

use crate::candidates::bindings_in_range;
use crate::device::UnifiedGraph;
use crate::families::are_families;
use crate::incidents::{is_incident, DetailedPlacementIncident};
use crate::legality::row_is_legal;
use crate::model::{BelId, CellId, NetId, Point};
use crate::ordered::same_keys;
use crate::placement_constraints::PlacementConstraints;
use crate::placement_state::all_apart;
use crate::refine::{all_indexed, current_row};
use crate::refiner::PlacementDelayEstimator;
use crate::spatial::{choice_point, SpatialChoiceIndex};
use crate::standing::{stands, stands_on, units_cover, units_stand};
use crate::targets::{arcs_in_range, TimingArc};
use crate::unit_list::units_disjoint;
use crate::units::PlacementUnit;
use crate::usage_model::{cells_in_range, lemma_without_cells, with_row, without_cells};

verus! {

/// Inputs of a detailed refinement.
pub struct DetailedProblem<'a, E: PlacementDelayEstimator> {
    /// Design and device.
    pub graph: UnifiedGraph<'a>,
    /// Placement rules.
    pub constraints: &'a PlacementConstraints,
    /// Units of the problem.
    pub units: &'a Vec<PlacementUnit>,
    /// Index of each unit's choices.
    pub spatial: &'a Vec<Arc<SpatialChoiceIndex>>,
    /// Delay prediction.
    pub estimator: &'a E,
    /// Critical arcs.
    pub arcs: Vec<TimingArc>,
    /// What each unit touches.
    pub incidents: Vec<DetailedPlacementIncident>,
    /// Units of one family offer the same rows.
    pub families: Vec<usize>,
}

/// A cell of the unit stands on the BEL.
pub open spec fn owns(unit: PlacementUnit, placed: Seq<Option<BelId>>, bel: BelId) -> bool {
    exists|k: int|
        0 <= k < unit.cells@.len() && placed[(#[trigger] unit.cells@[k]).0 as int] == Some(bel)
}

/// No unit stands on the BEL.
pub open spec fn unowned(
    units: Seq<PlacementUnit>,
    placed: Seq<Option<BelId>>,
    bel: BelId,
) -> bool {
    forall|u: int| 0 <= u < units.len() ==> !owns(#[trigger] units[u], placed, bel)
}

/// The table names the unit that stands on each BEL.
pub open spec fn tracks_owners(
    units: Seq<PlacementUnit>,
    placed: Seq<Option<BelId>>,
    owners: Seq<Option<usize>>,
) -> bool {
    forall|b: BelId|
        #![trigger owners[b.0 as int]]
        b.0 < owners.len() ==> match owners[b.0 as int] {
            Some(u) => u < units.len() && owns(units[u as int], placed, b),
            None => unowned(units, placed, b),
        }
}

/// Where the cells of a unit stand.
pub open spec fn row_of(unit: PlacementUnit, placed: Seq<Option<BelId>>) -> Seq<BelId> {
    Seq::new(unit.cells@.len(), |k: int| placed[unit.cells@[k].0 as int]->0)
}

/// Two units do not stand on one BEL.
pub proof fn lemma_sole_owner(
    graph: UnifiedGraph<'_>,
    constraints: &PlacementConstraints,
    units: Seq<PlacementUnit>,
    placed: Seq<Option<BelId>>,
    bel: BelId,
    u: int,
    v: int,
)
    requires
        forall|i: int| 0 <= i < units.len() ==> (#[trigger] units[i]).wf(graph, constraints),
        units_disjoint(units),
        placed.len() == graph.design.cells@.len(),
        all_apart(placed),
        0 <= u < units.len(),
        0 <= v < units.len(),
        owns(units[u], placed, bel),
        owns(units[v], placed, bel),
    ensures
        u == v,
{
    let k = choose|k: int|
        0 <= k < units[u].cells@.len() && placed[(#[trigger] units[u].cells@[k]).0 as int] == Some(
            bel,
        );
    let l = choose|l: int|
        0 <= l < units[v].cells@.len() && placed[(#[trigger] units[v].cells@[l]).0 as int] == Some(
            bel,
        );
    assert(units[u].wf(graph, constraints));
    assert(units[v].wf(graph, constraints));
    let c = units[u].cells@[k].0 as int;
    let d = units[v].cells@[l].0 as int;
    if c < d {
        assert(placed[c] is Some && placed[c] != placed[d]);
    } else if d < c {
        assert(placed[d] is Some && placed[d] != placed[c]);
    }
    assert(units[u].cells@[k] == units[v].cells@[l]);
}

/// Names a BEL's unit.
pub proof fn lemma_row_of(unit: PlacementUnit, placed: Seq<Option<BelId>>, index: int)
    requires
        stands_on(unit, placed, index),
        unit.choices.row(index).len() == unit.cells@.len(),
    ensures
        row_of(unit, placed) == unit.choices.row(index),
{
    assert forall|k: int| 0 <= k < unit.cells@.len() implies row_of(unit, placed)[k]
        == unit.choices.row(index)[k] by {
        assert(placed[unit.cells@[k].0 as int] == Some(unit.choices.row(index)[k]));
    }
    assert(row_of(unit, placed) =~= unit.choices.row(index));
}

impl<'a, E: PlacementDelayEstimator> DetailedProblem<'a, E> {
    /// The inputs fit each other.
    pub open spec fn wf(&self) -> bool {
        &&& self.graph.wf()
        &&& self.constraints.wf()
        &&& bindings_in_range(self.graph, self.constraints)
        &&& forall|u: int|
            0 <= u < self.units@.len() ==> (#[trigger] self.units@[u]).wf(
                self.graph,
                self.constraints,
            )
        &&& units_disjoint(self.units@)
        &&& units_cover(self.graph, self.units@)
        &&& all_indexed(self.graph, self.units@, self.spatial@)
        &&& arcs_in_range(self.graph, self.arcs@)
        &&& self.incidents@.len() == self.units@.len()
        &&& forall|u: int|
            0 <= u < self.incidents@.len() ==> is_incident(
                self.graph,
                self.units@[u].cells@,
                self.arcs@,
                #[trigger] self.incidents@[u],
            )
        &&& are_families(self.graph, self.constraints, self.units@, self.families@)
    }

    /// A unit may go to the row: the row is free but for itself, or a unit of
    /// its family stands exactly there and takes its place.
    pub open spec fn is_destination(
        &self,
        placed: Seq<Option<BelId>>,
        moving: int,
        row: Seq<BelId>,
        partner: Option<usize>,
    ) -> bool {
        match partner {
            None => forall|u: int, k: int|
                0 <= u < self.units@.len() && 0 <= k < row.len() && #[trigger] owns(
                    self.units@[u],
                    placed,
                    #[trigger] row[k],
                ) ==> u == moving,
            Some(other) => {
                &&& other < self.units@.len()
                &&& other != moving
                &&& self.units@[other as int].choices.count() > 1
                &&& self.families@[other as int] == self.families@[moving]
                &&& row_of(self.units@[other as int], placed) == row
            },
        }
    }

    /// Resources allow the move, or the swap.
    pub open spec fn is_legal_move(
        &self,
        placed: Seq<Option<BelId>>,
        moving: int,
        row: Seq<BelId>,
        partner: Option<usize>,
    ) -> bool {
        let cells = self.units@[moving].cells@;
        let lifted = without_cells(placed, cells);
        match partner {
            None => row_is_legal(self.graph, self.constraints, lifted, cells, row),
            Some(other) => {
                let others = self.units@[other as int].cells@;
                let empty = without_cells(lifted, others);
                &&& row_is_legal(self.graph, self.constraints, empty, cells, row)
                &&& row_is_legal(
                    self.graph,
                    self.constraints,
                    with_row(empty, cells, row),
                    others,
                    row_of(self.units@[moving], placed),
                )
            },
        }
    }

    /// Some net touches both units.
    pub open spec fn share_net(&self, a: int, b: int) -> bool {
        exists|n: NetId| #[trigger]
            self.incidents@[a].nets@.contains(n) && self.incidents@[b].nets@.contains(n)
    }

    /// The move is one that the unit may be offered around the target. To
    /// exchange two units of a net at the target itself changes nothing of the
    /// net, so such a swap is not offered.
    pub open spec fn is_usable(
        &self,
        placed: Seq<Option<BelId>>,
        moving: int,
        target: Point,
        choice: int,
        partner: Option<usize>,
    ) -> bool {
        let unit = self.units@[moving];
        let row = unit.choices.row(choice);
        &&& 0 <= choice < unit.choices.count()
        &&& row != row_of(unit, placed)
        &&& self.is_destination(placed, moving, row, partner)
        &&& !(partner matches Some(other) && choice_point(unit.choices, self.graph.device, choice)
            == target && self.share_net(moving, other as int))
        &&& self.is_legal_move(placed, moving, row, partner)
    }

    /// There is at most one partner for a row.
    pub proof fn lemma_one_partner(
        &self,
        placed: Seq<Option<BelId>>,
        moving: int,
        row: Seq<BelId>,
        a: Option<usize>,
        b: Option<usize>,
    )
        requires
            self.wf(),
            0 <= moving < self.units@.len(),
            placed.len() == self.graph.design.cells@.len(),
            all_apart(placed),
            units_stand(self.units@, placed),
            self.is_destination(placed, moving, row, a),
            self.is_destination(placed, moving, row, b),
        ensures
            a == b,
    {
        if a is Some {
            self.lemma_partner_owns(placed, moving, row, a->0);
            assert(owns(self.units@[a->0 as int], placed, row[0]));
        }
        if b is Some {
            self.lemma_partner_owns(placed, moving, row, b->0);
            assert(owns(self.units@[b->0 as int], placed, row[0]));
        }
        if a is Some && b is Some {
            lemma_sole_owner(
                self.graph,
                self.constraints,
                self.units@,
                placed,
                row[0],
                a->0 as int,
                b->0 as int,
            );
        }
    }

    /// The partner stands on the row.
    proof fn lemma_partner_owns(
        &self,
        placed: Seq<Option<BelId>>,
        moving: int,
        row: Seq<BelId>,
        partner: usize,
    )
        requires
            self.wf(),
            units_stand(self.units@, placed),
            self.is_destination(placed, moving, row, Some(partner)),
        ensures
            row.len() > 0,
            forall|k: int|
                0 <= k < row.len() ==> owns(
                    self.units@[partner as int],
                    placed,
                    #[trigger] row[k],
                ),
    {
        let unit = self.units@[partner as int];
        assert(unit.wf(self.graph, self.constraints));
        assert(stands(self.units@[partner as int], placed));
        let i = choose|i: int| #[trigger] stands_on(unit, placed, i);
        assert forall|k: int| 0 <= k < row.len() implies owns(unit, placed, #[trigger] row[k]) by {
            assert(placed[unit.cells@[k].0 as int] == Some(unit.choices.row(i)[k]));
        }
    }

    /// Finds whom the unit displaces, or that it cannot go to the row.
    pub(crate) fn find_destination(
        &self,
        moving: usize,
        row: &Vec<BelId>,
        placed: &Vec<Option<BelId>>,
        owners: &Vec<Option<usize>>,
        Ghost(full): Ghost<Seq<Option<BelId>>>,
    ) -> (result: Option<Option<usize>>)
        requires
            self.wf(),
            moving < self.units@.len(),
            full.len() == self.graph.design.cells@.len(),
            all_apart(full),
            units_stand(self.units@, full),
            placed@ == without_cells(full, self.units@[moving as int].cells@),
            owners@.len() == self.graph.device.bels@.len(),
            tracks_owners(self.units@, full, owners@),
            row@.len() > 0,
            forall|k: int|
                0 <= k < row@.len() ==> (#[trigger] row@[k]).0 < self.graph.device.bels@.len(),
        ensures
            match result {
                Some(partner) => self.is_destination(full, moving as int, row@, partner),
                None => forall|partner: Option<usize>|
                    !#[trigger] self.is_destination(full, moving as int, row@, partner),
            },
    {
        let mut other: Option<usize> = None;
        let mut at: usize = 0;
        let ghost mut seen: int = 0;
        while at < row.len()
            invariant
                at <= row@.len(),
                self.wf(),
                moving < self.units@.len(),
                full.len() == self.graph.design.cells@.len(),
                all_apart(full),
                units_stand(self.units@, full),
                owners@.len() == self.graph.device.bels@.len(),
                tracks_owners(self.units@, full, owners@),
                forall|k: int|
                    0 <= k < row@.len() ==> (#[trigger] row@[k]).0
                        < self.graph.device.bels@.len(),
                other matches Some(known) ==> known < self.units@.len() && known != moving && 0
                    <= seen < row@.len() && owns(self.units@[known as int], full, row@[seen]),
                forall|u: int, k: int|
                    0 <= u < self.units@.len() && 0 <= k < at && #[trigger] owns(
                        self.units@[u],
                        full,
                        #[trigger] row@[k],
                    ) ==> u == moving || other == Some(u as usize),
            decreases row@.len() - at,
        {
            let bel = row[at];
            assert(row@[at as int].0 < owners@.len());
            let owner = owners[bel.0];
            let ghost before = other;
            proof {
                assert(match owners@[bel.0 as int] {
                    Some(u) => u < self.units@.len() && owns(self.units@[u as int], full, bel),
                    None => unowned(self.units@, full, bel),
                });
                assert(self.units.len() == self.units@.len());
                assert forall|u: int|
                    0 <= u < self.units@.len() && #[trigger] owns(
                        self.units@[u],
                        full,
                        bel,
                    ) implies owner == Some(u as usize) by {
                    if owner is Some {
                        lemma_sole_owner(
                            self.graph,
                            self.constraints,
                            self.units@,
                            full,
                            bel,
                            u,
                            owner->0 as int,
                        );
                    } else {
                        assert(!owns(self.units@[u], full, bel));
                    }
                }
            }
            if let Some(unit) = owner {
                if unit != moving {
                    match other {
                        Some(known) => {
                            if known != unit {
                                proof {
                                    assert forall|partner: Option<usize>|
                                        !#[trigger] self.is_destination(
                                            full,
                                            moving as int,
                                            row@,
                                            partner,
                                        ) by {
                                        if self.is_destination(full, moving as int, row@, partner) {
                                            assert(owns(
                                                self.units@[unit as int],
                                                full,
                                                row@[at as int],
                                            ));
                                            if partner is Some {
                                                self.lemma_partner_owns(
                                                    full,
                                                    moving as int,
                                                    row@,
                                                    partner->0,
                                                );
                                                lemma_sole_owner(
                                                    self.graph,
                                                    self.constraints,
                                                    self.units@,
                                                    full,
                                                    row@[at as int],
                                                    unit as int,
                                                    partner->0 as int,
                                                );
                                                lemma_sole_owner(
                                                    self.graph,
                                                    self.constraints,
                                                    self.units@,
                                                    full,
                                                    row@[seen],
                                                    known as int,
                                                    partner->0 as int,
                                                );
                                            }
                                        }
                                    }
                                }
                                return None;
                            }
                        },
                        None => {
                            other = Some(unit);
                            proof {
                                seen = at as int;
                            }
                        },
                    }
                }
            }
            at = at + 1;
        }
        match other {
            None => {
                assert(self.is_destination(full, moving as int, row@, None));
                Some(None)
            },
            Some(partner) => {
                let unit = &self.units[partner];
                proof {
                    assert(self.units@[partner as int].wf(self.graph, self.constraints));
                    assert(self.units@[moving as int].wf(self.graph, self.constraints));
                    assert(stands(self.units@[partner as int], full));
                    let i = choose|i: int| #[trigger] stands_on(*unit, full, i);
                    let cells = self.units@[moving as int].cells@;
                    assert(cells_in_range(cells, full.len() as int));
                    lemma_without_cells(full, cells);
                    assert forall|k: int| 0 <= k < unit.cells@.len() implies (
                    #[trigger] unit.cells@[k]).0 < placed@.len()
                        && placed@[unit.cells@[k].0 as int] is Some
                        && placed@[unit.cells@[k].0 as int] == full[unit.cells@[k].0 as int] by {
                        let cell = unit.cells@[k];
                        assert(CellId((cell.0 as int) as usize) == cell);
                        if cells.contains(cell) {
                            let l = cells.index_of(cell);
                            assert(self.units@[moving as int].cells@[l]
                                == self.units@[partner as int].cells@[k]);
                        }
                        assert(placed@[cell.0 as int] == full[cell.0 as int]);
                        assert(full[unit.cells@[k].0 as int] == Some(unit.choices.row(i)[k]));
                    }
                }
                let standing = current_row(unit, placed);
                proof {
                    assert forall|k: int| 0 <= k < standing@.len() implies standing@[k] == row_of(
                        *unit,
                        full,
                    )[k] by {
                        assert(placed@[unit.cells@[k].0 as int] == Some(standing@[k]));
                    }
                    assert(standing@ =~= row_of(*unit, full));
                }
                let fits = unit.choices.len() > 1 && self.families[partner]
                    == self.families[moving] && same_keys(&standing, row);
                if fits {
                    Some(Some(partner))
                } else {
                    proof {
                        assert forall|p: Option<usize>|
                            !#[trigger] self.is_destination(full, moving as int, row@, p) by {
                            if self.is_destination(full, moving as int, row@, p) {
                                assert(owns(self.units@[partner as int], full, row@[seen]));
                                if p is Some {
                                    self.lemma_partner_owns(full, moving as int, row@, p->0);
                                    lemma_sole_owner(
                                        self.graph,
                                        self.constraints,
                                        self.units@,
                                        full,
                                        row@[seen],
                                        partner as int,
                                        p->0 as int,
                                    );
                                }
                            }
                        }
                    }
                    None
                }
            },
        }
    }
}

} // verus!
