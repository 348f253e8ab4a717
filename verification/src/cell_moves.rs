//! Moves of one unit that shorten the connections of one of its cells.

use vstd::prelude::*;
use vstd::string::*;

use crate::candidates::{bindings_in_range, can_hold};
use crate::connection_cost::{
    assignment_connection_excess, assignment_connection_span, total_excess, total_span,
    PlacementConnectionDelayWorkspace,
};
use crate::connection_move::{opens, row_opens};
use crate::device::UnifiedGraph;
use crate::model::{BelId, CellId, CellPinId, Point};
use crate::ordered::OrderedSet;
use crate::placement_constraints::PlacementConstraints;
use crate::placement_state::PlacementState;
use crate::projected_cost::{
    assignment_connection_projected_cost, external_unit_connections, is_external, is_total_price,
    projected_retained_tree_starts, projection_fits, PinPair,
};
use crate::projection::RouteCapacityProjection;
use crate::ranking::{has_row, insert_ranked, is_ranked, keep_first, names_choices, RankedRow};
use crate::row_cost::bel_point;
use crate::spatial::{begins_within, spatial_choices_within, SpatialChoiceIndex};
use crate::start::lemma_unit_on_device;
use crate::units::{row_fits, PlacementChoices, PlacementUnit};

verus! {

/// Rows that are priced against the incumbent routes.
pub const PROJECTION_SHORTLIST: usize = 16;

/// Connections of a cell whose unit moves.
#[derive(Clone, Copy)]
pub struct CellMove<'a> {
    /// Design and device.
    pub graph: UnifiedGraph<'a>,
    /// Placement rules.
    pub constraints: &'a PlacementConstraints,
    /// Unit that moves.
    pub unit: &'a PlacementUnit,
    /// Column of the moving cell in the unit.
    pub column: usize,
    /// Cell that moves.
    pub cell: CellId,
    /// Connections of the cell.
    pub connections: &'a [(CellPinId, CellPinId)],
    /// Delay that each connection may take.
    pub targets: &'a [u64],
    /// Delay of each PIP.
    pub delays: &'a [u32],
    /// Distance that the cell may move.
    pub distance: u64,
}

impl<'a> CellMove<'a> {
    /// The parts fit each other.
    pub open spec fn wf(&self) -> bool {
        &&& self.graph.wf()
        &&& self.constraints.wf()
        &&& bindings_in_range(self.graph, self.constraints)
        &&& self.unit.wf(self.graph, self.constraints)
        &&& self.column < self.unit.cells@.len()
        &&& self.targets@.len() == self.connections@.len()
        &&& self.delays@.len() == self.graph.device.pips@.len()
    }

    /// Far moves are ranked by span, near ones by delay.
    pub open spec fn is_broad(&self) -> bool {
        self.distance > 2
    }

    /// Span of the connections with the unit on a row.
    pub open spec fn span(&self, row: Seq<BelId>, placed: Seq<Option<BelId>>) -> Option<int> {
        total_span(self.graph, self.unit.cells@, row, self.cell, self.connections@, placed)
    }

    /// Delay of the connections above their targets with the unit on a row.
    pub open spec fn excess(&self, row: Seq<BelId>, placed: Seq<Option<BelId>>) -> Option<int> {
        total_excess(
            self.graph,
            self.constraints,
            self.unit.cells@,
            row,
            self.cell,
            self.connections@,
            self.targets@,
            placed,
            self.delays,
        )
    }

    /// Score and span of a row that improves on the current one.
    pub open spec fn rank_of(
        &self,
        current: Seq<BelId>,
        placed: Seq<Option<BelId>>,
        row: Seq<BelId>,
    ) -> Option<(int, int)> {
        match self.span(row, placed) {
            None => None,
            Some(span) => if self.is_broad() {
                if self.span(current, placed) matches Some(known) && span < known {
                    Some((span, 0))
                } else {
                    None
                }
            } else {
                match (self.excess(row, placed), self.excess(current, placed)) {
                    (Some(excess), Some(known)) => if excess < known {
                        Some((excess, span))
                    } else {
                        None
                    },
                    _ => None,
                }
            },
        }
    }

    /// The row is open and improves on the current one.
    pub open spec fn is_candidate(
        &self,
        current: Seq<BelId>,
        occupied: Seq<bool>,
        placed: Seq<Option<BelId>>,
        index: int,
    ) -> bool {
        &&& opens(
            self.graph,
            self.constraints,
            *self.unit,
            self.column as int,
            current,
            occupied,
            placed,
            self.distance as int,
            index,
        )
        &&& self.rank_of(current, placed, self.unit.choices.row(index)) is Some
    }

    /// The list ranks exactly the rows that are candidates.
    pub open spec fn is_ranking(
        &self,
        current: Seq<BelId>,
        occupied: Seq<bool>,
        placed: Seq<Option<BelId>>,
        list: Seq<RankedRow>,
    ) -> bool {
        &&& is_ranked(*self.unit, list)
        &&& names_choices(*self.unit, list)
        &&& forall|i: int|
            0 <= i < list.len() ==> self.is_candidate(
                current,
                occupied,
                placed,
                (#[trigger] list[i]).choice as int,
            ) && self.rank_of(current, placed, self.unit.choices.row(list[i].choice as int))
                == Some((list[i].score as int, list[i].span as int))
        &&& forall|index: int| #[trigger]
            self.is_candidate(current, occupied, placed, index) ==> has_row(
                *self.unit,
                list,
                self.unit.choices.row(index),
            )
    }

    /// Ranks the rows that are candidates.
    pub(crate) fn rank_rows(
        &self,
        spatial: &SpatialChoiceIndex,
        current: &Vec<BelId>,
        current_span: u64,
        current_excess: Option<u64>,
        state: &mut PlacementState,
        workspace: &mut PlacementConnectionDelayWorkspace,
    ) -> (result: Vec<RankedRow>)
        requires
            self.wf(),
            spatial.indexes(self.unit.choices, self.graph.device),
            current@.len() == self.unit.cells@.len(),
            forall|k: int|
                0 <= k < current@.len() ==> (#[trigger] current@[k]).0
                    < self.graph.device.bels@.len(),
            self.span(current@, old(state).placed@) == Some(current_span as int),
            !self.is_broad() ==> (current_excess matches Some(known) && self.excess(
                current@,
                old(state).placed@,
            ) == Some(known as int)),
            old(state).wf(self.graph, self.constraints),
            forall|k: int|
                0 <= k < self.unit.cells@.len() ==> old(state).placed@[(
                #[trigger] self.unit.cells@[k]).0 as int] is None,
            old(workspace).holds(self.graph.device, self.delays),
        ensures
            final(state).wf(self.graph, self.constraints),
            final(state).placed == old(state).placed,
            final(state).occupied == old(state).occupied,
            final(workspace).holds(self.graph.device, self.delays),
            self.is_ranking(
                current@,
                old(state).occupied@,
                old(state).placed@,
                result@,
            ),
    {
        let device = self.graph.device();
        let ghost placed = state.placed@;
        let ghost flags = state.occupied@;
        proof {
            lemma_unit_on_device(self.graph, self.constraints, *self.unit);
            assert(current@[0].0 < device.bels@.len());
        }
        let center = device.bels[current[0].0].point;
        let found = spatial_choices_within(
            spatial,
            center,
            self.distance,
            device,
            Ghost(self.unit.choices),
        );
        let ghost list = found.ordered();
        let mut result: Vec<RankedRow> = Vec::new();
        let mut at: usize = 0;
        while at < found.len()
            invariant
                at <= list.len(),
                list == found.ordered(),
                found.wf(),
                self.wf(),
                device == self.graph.device,
                center == bel_point(device, current@[0]),
                forall|i: usize| #[trigger]
                    found@.contains(i) <==> begins_within(
                        self.unit.choices,
                        device,
                        i as int,
                        center,
                        self.distance as int,
                    ),
                current@.len() == self.unit.cells@.len(),
                forall|k: int|
                    0 <= k < current@.len() ==> (#[trigger] current@[k]).0 < device.bels@.len(),
                state.wf(self.graph, self.constraints),
                state.placed == old(state).placed,
                state.occupied == old(state).occupied,
                placed == state.placed@,
                flags == state.occupied@,
                workspace.holds(self.graph.device, self.delays),
                self.span(current@, placed) == Some(current_span as int),
                !self.is_broad() ==> (current_excess matches Some(known) && self.excess(
                    current@,
                    placed,
                ) == Some(known as int)),
                forall|k: int|
                    0 <= k < self.unit.cells@.len() ==> placed[(
                    #[trigger] self.unit.cells@[k]).0 as int] is None,
                is_ranked(*self.unit, result@),
                names_choices(*self.unit, result@),
                forall|i: int|
                    0 <= i < result@.len() ==> self.is_candidate(
                        current@,
                        flags,
                        placed,
                        (#[trigger] result@[i]).choice as int,
                    ) && self.rank_of(
                        current@,
                        placed,
                        self.unit.choices.row(result@[i].choice as int),
                    ) == Some((result@[i].score as int, result@[i].span as int)),
                forall|i: int|
                    0 <= i < at && self.is_candidate(
                        current@,
                        flags,
                        placed,
                        (#[trigger] list[i]) as int,
                    ) ==> has_row(*self.unit, result@, self.unit.choices.row(list[i] as int)),
            decreases list.len() - at,
        {
            let choice: usize = found.at(at);
            proof {
                assert(list.contains(list[at as int]));
                found.membership(choice);
                assert(found@.contains(choice));
            }
            if row_opens(
                &self.graph,
                self.constraints,
                self.unit,
                self.column,
                choice,
                current,
                self.distance,
                state,
            ) {
                let row = self.unit.choices.assignment(choice);
                let rank = self.find_rank(
                    &row,
                    current_span,
                    current_excess,
                    &state.placed,
                    workspace,
                    Ghost(current@),
                );
                if let Some((score, span)) = rank {
                    let entry = RankedRow { score, span, choice };
                    let ghost before = result@;
                    insert_ranked(self.unit, &mut result, entry);
                    proof {
                        assert(self.is_candidate(current@, flags, placed, choice as int));
                        assert forall|i: int| 0 <= i < result@.len() implies self.is_candidate(
                            current@,
                            flags,
                            placed,
                            (#[trigger] result@[i]).choice as int,
                        ) && self.rank_of(
                            current@,
                            placed,
                            self.unit.choices.row(result@[i].choice as int),
                        ) == Some((result@[i].score as int, result@[i].span as int)) by {
                            assert(result@.contains(result@[i]));
                            if result@[i] != entry {
                                let k = before.index_of(result@[i]);
                                assert(before[k] == result@[i]);
                            }
                        }
                        assert forall|i: int|
                            0 <= i < at + 1 && self.is_candidate(
                                current@,
                                flags,
                                placed,
                                (#[trigger] list[i]) as int,
                            ) implies has_row(
                            *self.unit,
                            result@,
                            self.unit.choices.row(list[i] as int),
                        ) by {
                            if i < at {
                                let wanted = self.unit.choices.row(list[i] as int);
                                assert(has_row(*self.unit, before, wanted));
                                let k = choose|k: int|
                                    0 <= k < before.len() && self.unit.choices.row(
                                        (#[trigger] before[k]).choice as int,
                                    ) == wanted;
                                assert(before.contains(before[k]));
                                assert(result@.contains(before[k]));
                                let l = result@.index_of(before[k]);
                                assert(self.unit.choices.row(result@[l].choice as int) == wanted);
                            }
                        }
                    }
                }
            }
            at = at + 1;
        }
        proof {
            assert forall|index: int| #[trigger]
                self.is_candidate(current@, flags, placed, index) implies has_row(
                *self.unit,
                result@,
                self.unit.choices.row(index),
            ) by {
                assert(begins_within(
                    self.unit.choices,
                    device,
                    index,
                    center,
                    self.distance as int,
                ));
                assert(self.unit.choices.count() <= usize::MAX) by {
                    match self.unit.choices {
                        PlacementChoices::Shared(table) => {
                            assert(table.len() == table@.len());
                        },
                        PlacementChoices::SingleCell(single) => {
                            assert(single.len() == single@.len());
                        },
                    }
                }
                let choice = index as usize;
                assert(choice as int == index);
                assert(found@.contains(choice));
                found.membership(choice);
                let i = list.index_of(choice);
                assert(list[i] == choice);
                assert(self.is_candidate(current@, flags, placed, list[i] as int));
            }
        }
        result
    }

    /// Score and span of a row that improves on the current one.
    fn find_rank(
        &self,
        row: &Vec<BelId>,
        current_span: u64,
        current_excess: Option<u64>,
        placed: &Vec<Option<BelId>>,
        workspace: &mut PlacementConnectionDelayWorkspace,
        Ghost(current): Ghost<Seq<BelId>>,
    ) -> (result: Option<(u64, u64)>)
        requires
            self.wf(),
            self.span(current, placed@) == Some(current_span as int),
            !self.is_broad() ==> (current_excess matches Some(known) && self.excess(
                current,
                placed@,
            ) == Some(known as int)),
            old(workspace).holds(self.graph.device, self.delays),
        ensures
            final(workspace).holds(self.graph.device, self.delays),
            match result {
                Some(pair) => self.rank_of(current, placed@, row@) == Some(
                    (pair.0 as int, pair.1 as int),
                ),
                None => self.rank_of(current, placed@, row@) is None,
            },
    {
        let span: u64 = match assignment_connection_span(
            &self.graph,
            self.unit,
            row,
            self.cell,
            self.connections,
            placed,
        ) {
            Some(span) => span,
            None => {
                return None;
            },
        };
        if self.distance > 2 {
            if span < current_span {
                return Some((span, 0));
            }
            return None;
        }
        let excess: u64 = match assignment_connection_excess(
            &self.graph,
            self.constraints,
            self.unit,
            row,
            self.cell,
            self.connections,
            self.targets,
            placed,
            self.delays,
            workspace,
        ) {
            Some(excess) => excess,
            None => {
                return None;
            },
        };
        match current_excess {
            Some(known) => if excess < known {
                Some((excess, span))
            } else {
                None
            },
            None => None,
        }
    }

    /// Connections that are priced: all that cross the boundary of a larger unit.
    pub open spec fn are_priced(&self, links: Seq<(CellPinId, CellPinId)>) -> bool {
        if self.unit.cells@.len() == 1 {
            links == self.connections@
        } else {
            &&& forall|i: int, j: int|
                0 <= i < j < links.len() ==> crate::ordered::OrderedKey::rank(
                    PinPair { driver: (#[trigger] links[i]).0, sink: links[i].1 },
                ) < crate::ordered::OrderedKey::rank(
                    PinPair { driver: (#[trigger] links[j]).0, sink: links[j].1 },
                )
            &&& forall|driver: CellPinId, sink: CellPinId| #[trigger]
                links.contains((driver, sink)) <==> is_external(
                    self.graph.design,
                    self.unit.cells@,
                    PinPair { driver, sink },
                )
        }
    }

    /// The list ranks the rows of the shortlist that have a price, by price.
    pub open spec fn is_priced_ranking(
        &self,
        placed: Seq<Option<BelId>>,
        projection: &RouteCapacityProjection,
        links: Seq<(CellPinId, CellPinId)>,
        shortlist: Seq<RankedRow>,
        list: Seq<RankedRow>,
    ) -> bool {
        &&& is_ranked(*self.unit, list)
        &&& names_choices(*self.unit, list)
        &&& forall|i: int|
            0 <= i < list.len() ==> comes_from(shortlist, #[trigger] list[i]) && self.has_price(
                placed,
                projection,
                links,
                list[i].choice as int,
                Some(list[i].score),
            )
        &&& forall|k: int|
            0 <= k < shortlist.len() ==> has_row(
                *self.unit,
                list,
                self.unit.choices.row((#[trigger] shortlist[k]).choice as int),
            ) || self.has_price(placed, projection, links, shortlist[k].choice as int, None)
    }

    /// The price is that of the connections with the unit on a row.
    pub open spec fn has_price(
        &self,
        placed: Seq<Option<BelId>>,
        projection: &RouteCapacityProjection,
        links: Seq<(CellPinId, CellPinId)>,
        index: int,
        price: Option<u64>,
    ) -> bool {
        is_total_price(
            self.graph,
            self.constraints,
            self.unit.cells@,
            self.unit.choices.row(index),
            links,
            placed,
            self.delays,
            projection,
            price,
        )
    }

    /// Ranks the rows of the shortlist that have a price, by price.
    fn rank_by_price(
        &self,
        shortlist: &Vec<RankedRow>,
        placed: &Vec<Option<BelId>>,
        projection: &RouteCapacityProjection,
    ) -> (result: Vec<RankedRow>)
        requires
            self.wf(),
            projection_fits(self.graph, projection),
            names_choices(*self.unit, shortlist@),
        ensures
            exists|links: Seq<(CellPinId, CellPinId)>| #[trigger]
                self.are_priced(links) && self.is_priced_ranking(
                    placed@,
                    projection,
                    links,
                    shortlist@,
                    result@,
                ),
    {
        let links: Vec<(CellPinId, CellPinId)> = if self.unit.cells.len() == 1 {
            copy_links(self.connections)
        } else {
            external_unit_connections(self.graph.design(), self.unit)
        };
        assert(self.are_priced(links@));
        let retained = projected_retained_tree_starts(&self.graph, self.unit, &links, projection);
        let mut result: Vec<RankedRow> = Vec::new();
        let mut at: usize = 0;
        while at < shortlist.len()
            invariant
                at <= shortlist@.len(),
                self.wf(),
                projection_fits(self.graph, projection),
                names_choices(*self.unit, shortlist@),
                retained@.len() == links@.len(),
                forall|i: int|
                    0 <= i < retained@.len() ==> crate::projected_cost::starts_found(
                        crate::projected_cost::retained_starts(
                            self.graph.design,
                            self.unit.cells@,
                            links@[i],
                            projection,
                        ),
                        #[trigger] retained@[i],
                    ),
                self.is_priced_ranking(
                    placed@,
                    projection,
                    links@,
                    shortlist@.take(at as int),
                    result@,
                ),
            decreases shortlist@.len() - at,
        {
            let entry = shortlist[at];
            assert(shortlist@[at as int].choice < self.unit.choices.count());
            let row = self.unit.choices.assignment(entry.choice);
            let price = assignment_connection_projected_cost(
                &self.graph,
                self.constraints,
                self.unit,
                &row,
                &links,
                &retained,
                placed,
                self.delays,
                projection,
            );
            let ghost before = result@;
            let ghost shorter = shortlist@.take(at as int);
            let ghost longer = shortlist@.take(at + 1);
            assert(self.has_price(placed@, projection, links@, entry.choice as int, price));
            if let Some(score) = price {
                insert_ranked(
                    self.unit,
                    &mut result,
                    RankedRow { score, span: entry.score, choice: entry.choice },
                );
            }
            proof {
                assert(longer =~= shorter.push(entry));
                assert forall|i: int| 0 <= i < result@.len() implies comes_from(
                    longer,
                    #[trigger] result@[i],
                ) && self.has_price(
                    placed@,
                    projection,
                    links@,
                    result@[i].choice as int,
                    Some(result@[i].score),
                ) by {
                    if price is None {
                        assert(result@[i] == before[i]);
                    } else {
                        assert(result@.contains(result@[i]));
                    }
                    if before.contains(result@[i]) {
                        let b = before.index_of(result@[i]);
                        assert(before[b] == result@[i]);
                        assert(comes_from(shorter, before[b]));
                        let k = choose|k: int|
                            0 <= k < shorter.len() && (#[trigger] shorter[k]).choice
                                == before[b].choice && shorter[k].score == before[b].span;
                        assert(longer[k].choice == before[b].choice);
                    } else {
                        assert(longer[at as int].choice == entry.choice);
                    }
                }
                assert forall|k: int| 0 <= k < longer.len() implies has_row(
                    *self.unit,
                    result@,
                    self.unit.choices.row((#[trigger] longer[k]).choice as int),
                ) || self.has_price(
                    placed@,
                    projection,
                    links@,
                    longer[k].choice as int,
                    None,
                ) by {
                    if k < at {
                        assert(longer[k] == shorter[k]);
                        let wanted = self.unit.choices.row(shorter[k].choice as int);
                        if has_row(*self.unit, before, wanted) {
                            let b = choose|b: int|
                                0 <= b < before.len() && self.unit.choices.row(
                                    (#[trigger] before[b]).choice as int,
                                ) == wanted;
                            if price is Some {
                                assert(before.contains(before[b]));
                                assert(result@.contains(before[b]));
                                let l = result@.index_of(before[b]);
                                assert(self.unit.choices.row(result@[l].choice as int) == wanted);
                            }
                        }
                    }
                }
            }
            at = at + 1;
        }
        assert(shortlist@.take(at as int) =~= shortlist@);
        result
    }
}

/// The entry is one of the shortlist, which scored it by what is now its span.
pub open spec fn comes_from(shortlist: Seq<RankedRow>, entry: RankedRow) -> bool {
    exists|k: int|
        0 <= k < shortlist.len() && (#[trigger] shortlist[k]).choice == entry.choice
            && shortlist[k].score == entry.span
}

/// A copy of the connections.
fn copy_links(links: &[(CellPinId, CellPinId)]) -> (result: Vec<(CellPinId, CellPinId)>)
    ensures
        result@ == links@,
{
    let mut result: Vec<(CellPinId, CellPinId)> = Vec::new();
    let mut at: usize = 0;
    while at < links.len()
        invariant
            at <= links@.len(),
            result@ == links@.take(at as int),
        decreases links@.len() - at,
    {
        result.push(links[at]);
        assert(links@.take(at + 1) =~= links@.take(at as int).push(links@[at as int]));
        at = at + 1;
    }
    assert(links@.take(at as int) =~= links@);
    result
}

/// The first entries of a list.
pub open spec fn first_of(list: Seq<RankedRow>, count: int) -> Seq<RankedRow> {
    if count < list.len() {
        list.take(count)
    } else {
        list
    }
}

/// The larger of two numbers.
pub open spec fn at_least(value: usize, least: usize) -> usize {
    if value < least {
        least
    } else {
        value
    }
}

impl<'a> CellMove<'a> {
    /// Tile of the moving cell on a ranked row.
    pub open spec fn point_of(&self, entry: RankedRow) -> Point {
        bel_point(
            self.graph.device,
            self.unit.choices.row(entry.choice as int)[self.column as int],
        )
    }

    /// Some entry puts the moving cell on the tile.
    pub open spec fn has_point(&self, list: Seq<RankedRow>, point: Point) -> bool {
        exists|i: int| 0 <= i < list.len() && self.point_of(#[trigger] list[i]) == point
    }

    /// The entries that put the moving cell on a tile first.
    pub open spec fn first_points(&self, list: Seq<RankedRow>) -> Seq<RankedRow>
        decreases list.len(),
    {
        if list.len() == 0 {
            list
        } else {
            let rest = self.first_points(list.drop_last());
            if self.has_point(rest, self.point_of(list.last())) {
                rest
            } else {
                rest.push(list.last())
            }
        }
    }

    /// The rows that are proposed.
    pub open spec fn is_selection(
        &self,
        placed: Seq<Option<BelId>>,
        projection: Option<&RouteCapacityProjection>,
        max_candidates: usize,
        ranking: Seq<RankedRow>,
        chosen: Seq<RankedRow>,
    ) -> bool {
        let count = at_least(max_candidates, 1) as int;
        if !self.is_broad() {
            chosen == first_of(ranking, count)
        } else {
            match projection {
                None => chosen == self.first_points(first_of(ranking, count)),
                Some(projection) => {
                    let shortlist = first_of(
                        ranking,
                        at_least(max_candidates, PROJECTION_SHORTLIST) as int,
                    );
                    exists|links: Seq<(CellPinId, CellPinId)>, priced: Seq<RankedRow>|
                        {
                            &&& #[trigger] self.are_priced(links)
                            &&& #[trigger] self.is_priced_ranking(
                                placed,
                                projection,
                                links,
                                shortlist,
                                priced,
                            )
                            &&& chosen == self.first_points(
                                first_of(
                                    if priced.len() == 0 {
                                        shortlist
                                    } else {
                                        priced
                                    },
                                    count,
                                ),
                            )
                        }
                },
            }
        }
    }

    /// Keeps the entries that put the moving cell on a tile first.
    fn keep_first_points(&self, list: &Vec<RankedRow>) -> (result: Vec<RankedRow>)
        requires
            self.wf(),
            names_choices(*self.unit, list@),
        ensures
            result@ == self.first_points(list@),
            names_choices(*self.unit, result@),
            forall|x: RankedRow| #[trigger] result@.contains(x) ==> list@.contains(x),
    {
        let device = self.graph.device();
        let mut result: Vec<RankedRow> = Vec::new();
        let mut seen: OrderedSet<Point> = OrderedSet::new();
        let mut at: usize = 0;
        while at < list.len()
            invariant
                at <= list@.len(),
                self.wf(),
                device == self.graph.device,
                names_choices(*self.unit, list@),
                seen.wf(),
                result@ == self.first_points(list@.take(at as int)),
                names_choices(*self.unit, result@),
                forall|x: RankedRow| #[trigger] result@.contains(x) ==> list@.contains(x),
                forall|p: Point| #[trigger] seen@.contains(p) <==> self.has_point(result@, p),
            decreases list@.len() - at,
        {
            let entry = list[at];
            assert(list@[at as int].choice < self.unit.choices.count());
            let row = self.unit.choices.assignment(entry.choice);
            proof {
                assert(row_fits(
                    self.graph,
                    self.constraints,
                    self.unit.cells@,
                    self.unit.choices.row(entry.choice as int),
                ));
                assert(can_hold(
                    self.graph,
                    self.constraints,
                    self.unit.cells@[self.column as int],
                    row@[self.column as int],
                ));
                assert(list@.take(at + 1).drop_last() =~= list@.take(at as int));
                assert(list@.take(at + 1).last() == entry);
            }
            let point = device.bels[row[self.column].0].point;
            let ghost before = result@;
            let ghost known = seen@;
            if seen.insert(point) {
                result.push(entry);
                proof {
                    assert forall|p: Point| #[trigger] seen@.contains(p) <==> self.has_point(
                        result@,
                        p,
                    ) by {
                        assert(known.contains(p) <==> self.has_point(before, p));
                        if self.has_point(before, p) {
                            let k = choose|k: int|
                                0 <= k < before.len() && self.point_of(#[trigger] before[k]) == p;
                            assert(self.point_of(result@[k]) == p);
                        }
                        if p == point {
                            assert(self.point_of(result@[before.len() as int]) == p);
                        }
                        if self.has_point(result@, p) && p != point {
                            let k = choose|k: int|
                                0 <= k < result@.len() && self.point_of(#[trigger] result@[k])
                                    == p;
                            assert(self.point_of(before[k]) == p);
                        }
                    }
                    assert forall|x: RankedRow| #[trigger] result@.contains(x) implies list@.contains(
                    x) by {
                        let k = result@.index_of(x);
                        if k < before.len() {
                            assert(before.contains(before[k]));
                        } else {
                            assert(list@.contains(list@[at as int]));
                        }
                    }
                }
            }
            at = at + 1;
        }
        assert(list@.take(at as int) =~= list@);
        result
    }

    /// Selects the rows that are proposed.
    pub(crate) fn select_rows(
        &self,
        ranking: Vec<RankedRow>,
        placed: &Vec<Option<BelId>>,
        projection: Option<&RouteCapacityProjection>,
        max_candidates: usize,
    ) -> (result: Vec<RankedRow>)
        requires
            self.wf(),
            projection matches Some(projection) ==> projection_fits(self.graph, projection),
            names_choices(*self.unit, ranking@),
        ensures
            self.is_selection(placed@, projection, max_candidates, ranking@, result@),
            names_choices(*self.unit, result@),
            forall|x: RankedRow| #[trigger]
                result@.contains(x) ==> exists|i: int|
                    0 <= i < ranking@.len() && (#[trigger] ranking@[i]).choice == x.choice,
    {
        let count: usize = if max_candidates < 1 {
            1
        } else {
            max_candidates
        };
        let ghost all = ranking@;
        let mut list = ranking;
        if self.distance <= 2 {
            keep_first(&mut list, count);
            proof {
                assert forall|x: RankedRow| #[trigger] list@.contains(x) implies exists|i: int|
                    0 <= i < all.len() && (#[trigger] all[i]).choice == x.choice by {
                    let k = list@.index_of(x);
                    assert(all[k] == x);
                }
            }
            return list;
        }
        if let Some(projection) = projection {
            let wide: usize = if max_candidates < PROJECTION_SHORTLIST {
                PROJECTION_SHORTLIST
            } else {
                max_candidates
            };
            keep_first(&mut list, wide);
            let ghost shortlist = list@;
            assert(shortlist == first_of(all, wide as int));
            let priced = self.rank_by_price(&list, placed, projection);
            let ghost links = choose|links: Seq<(CellPinId, CellPinId)>| #[trigger]
                self.are_priced(links) && self.is_priced_ranking(
                    placed@,
                    projection,
                    links,
                    shortlist,
                    priced@,
                );
            let ghost prices = priced@;
            if priced.len() > 0 {
                list = priced;
            }
            proof {
                assert(self.are_priced(links));
                assert(self.is_priced_ranking(
                    placed@,
                    projection,
                    links,
                    shortlist,
                    prices,
                ));
                assert forall|x: RankedRow| #[trigger] list@.contains(x) implies exists|i: int|
                    0 <= i < all.len() && (#[trigger] all[i]).choice == x.choice by {
                    let k = list@.index_of(x);
                    if prices.len() > 0 {
                        assert(comes_from(shortlist, list@[k]));
                        let i = choose|i: int|
                            0 <= i < shortlist.len() && (#[trigger] shortlist[i]).choice
                                == list@[k].choice && shortlist[i].score == list@[k].span;
                        assert(all[i] == shortlist[i]);
                    } else {
                        assert(all[k] == x);
                    }
                }
            }
            let ghost base = list@;
            keep_first(&mut list, count);
            proof {
                assert(list@ == first_of(base, count as int));
                assert forall|x: RankedRow| #[trigger] list@.contains(x) implies base.contains(x) by {
                    let k = list@.index_of(x);
                    assert(base[k] == x);
                }
            }
            let result = self.keep_first_points(&list);
            proof {
                assert(shortlist == first_of(
                    all,
                    at_least(max_candidates, PROJECTION_SHORTLIST) as int,
                ));
                assert(base == if prices.len() == 0 {
                    shortlist
                } else {
                    prices
                });
                assert(count == at_least(max_candidates, 1));
                assert(result@ == self.first_points(
                    first_of(
                        if prices.len() == 0 {
                            shortlist
                        } else {
                            prices
                        },
                        count as int,
                    ),
                ));
                assert(self.are_priced(links) && self.is_priced_ranking(
                    placed@,
                    projection,
                    links,
                    first_of(all, at_least(max_candidates, PROJECTION_SHORTLIST) as int),
                    prices,
                ));
            }
            return result;
        }
        keep_first(&mut list, count);
        proof {
            assert(list@ == first_of(all, count as int));
            assert forall|x: RankedRow| #[trigger] list@.contains(x) implies exists|i: int|
                0 <= i < all.len() && (#[trigger] all[i]).choice == x.choice by {
                let k = list@.index_of(x);
                assert(all[k] == x);
            }
        }
        self.keep_first_points(&list)
    }
}

} // verus!
