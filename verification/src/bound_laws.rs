//! How far moves go, and how long the router tries.

use std::sync::Arc;

use vstd::prelude::*;

use crate::cell_moves::{first_of, CellMove};
use crate::cell_refine::{are_proposals, proposals_outcome};
use crate::connection_move::{connection_outcome, unit_moved};
use crate::course::NegotiationPoint;
use crate::finish::all_placed;
use crate::model::{BelId, CellId, CellPinId, Connection};
use crate::move_laws::lemma_chosen_is_ranked;
use crate::net_growth::NetRouter;
use crate::placement::Placement;
use crate::projection::RouteCapacityProjection;
use crate::ranking::RankedRow;
use crate::refine_laws::tiles_between;
use crate::refiner::PlacementRefiner;
use crate::route::NetRoute;
use crate::routing_constraints::RoutingConstraints;
use crate::routing_costs::RoutingCosts;
use crate::search::{RouteQuery, RouteSearch};
use crate::target_laws::lemma_proposed;
use crate::trial::Trial;
use crate::usage_model::{lemma_with_row, lemma_without_cells, without_cells};
use crate::victims::{
    is_victim, must_release, owner_locked, ranking, ranks, sink_locked, ConnectionOwner,
    RankedConnectionOwner,
};

verus! {

/// Tiles by which two placements part the places of a cell.
pub open spec fn moved_by(
    refiner: PlacementRefiner<'_>,
    before: Seq<BelId>,
    after: Seq<BelId>,
    cell: CellId,
) -> int {
    tiles_between(
        refiner.graph.device.bels@[before[cell.0 as int].0 as int].point,
        refiner.graph.device.bels@[after[cell.0 as int].0 as int].point,
    )
}

/// What moving the unit to a row does to its cells and to the others.
proof fn lemma_moved(
    refiner: PlacementRefiner<'_>,
    unit: int,
    start: Placement,
    index: int,
    placement: Placement,
)
    requires
        refiner.wf(),
        0 <= unit < refiner.units@.len(),
        start.bindings@.len() == refiner.graph.design.cells@.len(),
        0 <= index < refiner.units@[unit].choices.count(),
        unit_moved(refiner, unit, start, index, placement),
    ensures
        placement.bindings@.len() == start.bindings@.len(),
        forall|k: int|
            0 <= k < refiner.units@[unit].cells@.len() ==> placement.bindings@[(
            #[trigger] refiner.units@[unit].cells@[k]).0 as int]
                == refiner.units@[unit].choices.row(index)[k],
        forall|c: int|
            0 <= c < start.bindings@.len() && !refiner.units@[unit].cells@.contains(
                CellId(c as usize),
            ) ==> #[trigger] placement.bindings@[c] == start.bindings@[c],
{
    let cells = refiner.units@[unit].cells@;
    let row = refiner.units@[unit].choices.row(index);
    let whole = all_placed(start.bindings@);
    let empty = without_cells(whole, cells);
    let later = placement.bindings@;
    assert(refiner.units@[unit].wf(refiner.graph, refiner.constraints));
    assert(crate::units::row_fits(refiner.graph, refiner.constraints, cells, row));
    lemma_without_cells(whole, cells);
    lemma_with_row(empty, cells, row);
    assert(all_placed(later).len() == later.len());
    assert forall|k: int| 0 <= k < cells.len() implies later[(#[trigger] cells[k]).0 as int]
        == row[k] by {
        assert(all_placed(later)[cells[k].0 as int] == Some(later[cells[k].0 as int]));
    }
    assert forall|c: int|
        0 <= c < start.bindings@.len() && !cells.contains(
            CellId(c as usize),
        ) implies #[trigger] later[c] == start.bindings@[c] by {
        assert(all_placed(later)[c] == Some(later[c]));
        assert(whole[c] == Some(start.bindings@[c]));
        assert(empty[c] == whole[c]);
        assert(all_placed(later)[c] == empty[c]);
    }
}

/// Entries that come first on their tiles are no more than there are.
proof fn lemma_first_points_len(step: CellMove<'_>, list: Seq<RankedRow>)
    ensures
        step.first_points(list).len() <= list.len(),
    decreases list.len(),
{
    if list.len() > 0 {
        lemma_first_points_len(step, list.drop_last());
    }
}

/// A proposal moves the cell no farther than was allowed, and moves no cell that does
/// not belong to the same unit; and there are no more proposals than were asked for.
pub proof fn proposals_stay_near_and_few(
    refiner: PlacementRefiner<'_>,
    start: Placement,
    cell: CellId,
    connections: &[(CellPinId, CellPinId)],
    targets: &[u64],
    delays: &[u32],
    projection: Option<&RouteCapacityProjection>,
    distance: u64,
    max_candidates: usize,
    list: Vec<Placement>,
    at: int,
) -> (unit: int)
    requires
        refiner.wf(),
        proposals_outcome(
            refiner,
            start,
            cell,
            connections,
            targets,
            delays,
            projection,
            distance,
            max_candidates,
            Ok(list),
        ),
        0 <= at < list@.len(),
    ensures
        0 <= unit < refiner.units@.len(),
        refiner.units@[unit].cells@.contains(cell),
        moved_by(refiner, start.bindings@, list@[at].bindings@, cell) <= distance,
        list@[at].bindings@ != start.bindings@,
        forall|c: int|
            0 <= c < start.bindings@.len() && !refiner.units@[unit].cells@.contains(
                CellId(c as usize),
            ) ==> #[trigger] list@[at].bindings@[c] == start.bindings@[c],
        list@.len() <= if max_candidates < 1 {
            1
        } else {
            max_candidates as int
        },
{
    let (unit, step, current, occupied, placed) = lemma_proposed(
        refiner,
        start,
        cell,
        connections,
        targets,
        delays,
        projection,
        distance,
        max_candidates,
        list,
    );
    let (ranking, chosen) = choose|ranking: Seq<RankedRow>, chosen: Seq<RankedRow>|
        {
            &&& #[trigger] step.is_ranking(current, occupied, placed, ranking)
            &&& #[trigger] step.is_selection(placed, projection, max_candidates, ranking, chosen)
            &&& are_proposals(refiner, unit, start, chosen, list@)
        };
    let found = lemma_chosen_is_ranked(
        step,
        placed,
        projection,
        max_candidates,
        ranking,
        chosen,
        at,
    );
    let index = ranking[found].choice as int;
    assert(step.is_candidate(current, occupied, placed, index));
    assert(unit_moved(refiner, unit, start, index, list@[at]));
    lemma_moved(refiner, unit, start, index, list@[at]);
    let cells = refiner.units@[unit].cells@;
    let row = refiner.units@[unit].choices.row(index);
    let column = step.column as int;
    assert(cells[column] == cell);
    assert(list@[at].bindings@[cells[column].0 as int] == row[column]);
    assert(current[column] == start.bindings@[cells[column].0 as int]);
    if list@[at].bindings@ == start.bindings@ {
        assert(crate::units::row_fits(refiner.graph, refiner.constraints, cells, row)) by {
            assert(refiner.units@[unit].wf(refiner.graph, refiner.constraints));
        }
        assert forall|k: int| 0 <= k < cells.len() implies row[k] == current[k] by {
            assert(list@[at].bindings@[cells[k].0 as int] == row[k]);
        }
        assert(row =~= current);
    }
    lemma_selection_len(step, placed, projection, max_candidates, ranking, chosen);
    unit
}

/// No more rows are chosen than were asked for.
proof fn lemma_selection_len(
    step: CellMove<'_>,
    placed: Seq<Option<BelId>>,
    projection: Option<&RouteCapacityProjection>,
    max_candidates: usize,
    ranking: Seq<RankedRow>,
    chosen: Seq<RankedRow>,
)
    requires
        step.is_selection(placed, projection, max_candidates, ranking, chosen),
    ensures
        chosen.len() <= if max_candidates < 1 {
            1
        } else {
            max_candidates as int
        },
{
    let count = crate::cell_moves::at_least(max_candidates, 1) as int;
    if step.is_broad() {
        match projection {
            None => {
                lemma_first_points_len(step, first_of(ranking, count));
            },
            Some(projection) => {
                let shortlist = first_of(
                    ranking,
                    crate::cell_moves::at_least(
                        max_candidates,
                        crate::cell_moves::PROJECTION_SHORTLIST,
                    ) as int,
                );
                let (links, priced) = choose|
                    links: Seq<(CellPinId, CellPinId)>,
                    priced: Seq<RankedRow>,
                |
                    {
                        &&& #[trigger] step.are_priced(links)
                        &&& #[trigger] step.is_priced_ranking(
                            placed,
                            projection,
                            links,
                            shortlist,
                            priced,
                        )
                        &&& chosen == step.first_points(
                            first_of(
                                if priced.len() == 0 {
                                    shortlist
                                } else {
                                    priced
                                },
                                count,
                            ),
                        )
                    };
                lemma_first_points_len(step, first_of(shortlist, count));
                lemma_first_points_len(step, first_of(priced, count));
            },
        }
    }
}

/// Moving one end of a connection moves that end no farther than was allowed, and leaves
/// the other end where it is.
pub proof fn a_connection_move_stays_near(
    refiner: PlacementRefiner<'_>,
    start: Placement,
    driver: CellPinId,
    sink: CellPinId,
    move_driver: bool,
    delays: &[u32],
    distance: u64,
    placement: Placement,
)
    requires
        refiner.wf(),
        connection_outcome(
            refiner,
            start,
            driver,
            sink,
            move_driver,
            delays,
            distance,
            Ok(Some(placement)),
        ),
    ensures
        ({
            let pins = refiner.graph.design.pins@;
            let moving = pins[if move_driver {
                driver.0 as int
            } else {
                sink.0 as int
            }].cell;
            let fixed = pins[if move_driver {
                sink.0 as int
            } else {
                driver.0 as int
            }].cell;
            &&& moved_by(refiner, start.bindings@, placement.bindings@, moving) <= distance
            &&& placement.bindings@[fixed.0 as int] == start.bindings@[fixed.0 as int]
        }),
{
    let pins = refiner.graph.design.pins@;
    let moving = pins[if move_driver {
        driver.0 as int
    } else {
        sink.0 as int
    }].cell;
    let fixed = pins[if move_driver {
        sink.0 as int
    } else {
        driver.0 as int
    }].cell;
    let (unit, step, current, occupied, placed, limit, index) = crate::move_laws::lemma_connection_move(
        refiner,
        start,
        driver,
        sink,
        move_driver,
        delays,
        distance,
        placement,
    );
    assert(step.improves(current, occupied, placed, distance as int, limit, index));
    lemma_moved(refiner, unit, start, index, placement);
    let cells = refiner.units@[unit].cells@;
    let column = step.column as int;
    assert(cells[column] == moving);
    assert(placement.bindings@[cells[column].0 as int]
        == refiner.units@[unit].choices.row(index)[column]);
    assert(current[column] == start.bindings@[cells[column].0 as int]);
    assert(fixed.0 < refiner.graph.design.cells@.len());
    assert(CellId(fixed.0 as int as usize) == fixed);
    assert(placement.bindings@[fixed.0 as int] == start.bindings@[fixed.0 as int]);
}

/// A connection is recovered from another wire of the tree exactly where the router may,
/// the connection is at least five eighths critical, and the caller gave a delay per
/// tile for it.
pub proof fn the_critical_are_recovered(
    router: NetRouter<'_>,
    query: RouteQuery<'_>,
    costs: &RoutingCosts,
)
    requires
        router.costs == Some(costs),
    ensures
        router.allow_alternate_source && query.criticality >= 40 ==> router.recovery_delay(query)
            == costs.alternate_source_delay_per_tile_ps,
        !router.allow_alternate_source || query.criticality < 40 ==> router.recovery_delay(query)
            is None,
{
}

/// A negotiation goes through no more iterations than the caller allows.
pub proof fn a_negotiation_keeps_to_its_iterations(
    trial: Trial<'_>,
    base: RouteSearch,
    routes: Seq<Option<Arc<NetRoute>>>,
    points: Seq<NegotiationPoint>,
)
    requires
        trial.is_course(base, routes, points),
    ensures
        trial.costs matches Some(costs) ==> points.len() <= costs.max_iterations + 1,
        trial.costs is None ==> points.len() <= 33,
{
}

/// Where several nets use a resource that carries one, every one of their movable
/// connections on it is released.
pub proof fn every_contender_for_a_single_place_is_released(
    records: Set<ConnectionOwner>,
    capacities: Seq<u16>,
    constraints: &RoutingConstraints,
    costs: Option<&RoutingCosts>,
    resource: usize,
    connection: Connection,
    entry: RankedConnectionOwner,
    other: RankedConnectionOwner,
)
    requires
        ranking(records, constraints, costs, resource).finite(),
        capacities[resource as int] == 1,
        ranks(records, constraints, costs, resource, entry),
        ranks(records, constraints, costs, resource, other),
        entry.net == connection.net,
        other.net != connection.net,
        records.contains(
            ConnectionOwner { resource, net: connection.net, sink: Some(connection.sink) },
        ),
        !owner_locked(records, constraints, resource, connection.net),
    ensures
        is_victim(records, capacities, constraints, costs, connection),
{
    let all = ranking(records, constraints, costs, resource);
    assert(all.contains(entry));
    assert(all.contains(other));
    let pair = set![entry, other];
    assert(pair.subset_of(all));
    assert(pair.len() == 2) by {
        assert(set![entry].len() == 1);
        assert(!set![entry].contains(other));
    }
    vstd::set_lib::lemma_len_subset(pair, all);
    assert(must_release(records, capacities, constraints, costs, resource, connection.net));
    assert(!sink_locked(constraints, connection.net, Some(connection.sink)));
}

} // verus!
