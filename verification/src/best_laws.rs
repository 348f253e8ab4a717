//! Of several moves the best is taken.

use vstd::prelude::*;

use crate::cell_moves::{first_of, CellMove};
use crate::cell_refine::{are_proposals, proposals_outcome};
use crate::connection_cost::total_excess;
use crate::connection_move::{is_lifted, opens, unit_moved, ConnectionMove};
use crate::cost::clip_u64;
use crate::detail::DetailedProblem;
use crate::detail_costs::{bbox_total, timing_total};
use crate::device::UnifiedGraph;
use crate::finish::all_placed;
use crate::greedy::{is_placing_order, UnitOrder};
use crate::model::{BelId, CellId, CellPinId};
use crate::neighbors::{are_neighbors, PlacementNeighbor, PlacementWeights};
use crate::ordered::{OrderedKey, OrderedSet};
use crate::placement::Placement;
use crate::placement_constraints::PlacementConstraints;
use crate::predicted::{normalizer_of, DetailPoint};
use crate::predicted_laws::{lemma_weighed, weighed};
use crate::projection::RouteCapacityProjection;
use crate::ranking::RankedRow;
use crate::refine::is_cheapest;
use crate::refine_laws::{is_unit_at, lemma_total_shift, lemma_whole_row_cost, whole_stretch};
use crate::refiner::{PlacementDelayEstimator, PlacementRefiner};
use crate::target_laws::{bound_delay, lemma_current_row, lemma_link_delay, lemma_proposed};
use crate::units::PlacementUnit;
use crate::usage_model::{cells_in_range, with_row, without_cells};

verus! {

/// Of the rows that a unit is offered, refinement considers the one on which the
/// connections between different units cost the least together, by the caller's tables.
pub proof fn refinement_considers_the_cheapest_row(
    graph: UnifiedGraph<'_>,
    constraints: &PlacementConstraints,
    weights: PlacementWeights<'_>,
    units: Seq<PlacementUnit>,
    lists: Seq<Vec<PlacementNeighbor>>,
    unit: int,
    empty: &Vec<Option<BelId>>,
    found: OrderedSet<usize>,
    choice: int,
    at: int,
)
    requires
        graph.wf(),
        is_unit_at(graph, constraints, units, unit),
        are_neighbors(graph.design, weights, lists),
        empty@.len() == graph.design.cells@.len(),
        is_cheapest(graph, lists, empty@, units[unit], found, choice),
        0 <= at < found.ordered().len(),
        at < 64,
        0 <= choice < units[unit].choices.count(),
        found.ordered()[at] < units[unit].choices.count(),
        crate::row_cost::row_cost_upto(
            units[unit].cells@.len() as int,
            units[unit].cells@,
            units[unit].choices.row(found.ordered()[at] as int),
            graph.device,
            lists,
            empty@,
        ) < u64::MAX,
    ensures
        whole_stretch(
            graph,
            weights,
            units,
            with_row(empty@, units[unit].cells@, units[unit].choices.row(choice)),
        ) <= whole_stretch(
            graph,
            weights,
            units,
            with_row(
                empty@,
                units[unit].cells@,
                units[unit].choices.row(found.ordered()[at] as int),
            ),
        ),
{
    let one = units[unit];
    let cells = one.cells@;
    let count = cells.len() as int;
    let row = one.choices.row(choice);
    let rival = one.choices.row(found.ordered()[at] as int);
    assert(one.wf(graph, constraints));
    assert(crate::units::row_fits(graph, constraints, cells, row));
    assert(crate::units::row_fits(graph, constraints, cells, rival));
    assert(empty.len() == empty@.len());
    assert(graph.design.nets.len() == graph.design.nets@.len());
    assert(cells_in_range(cells, lists.len() as int));
    lemma_whole_row_cost(graph.design, weights, lists, cells, row, graph.device, empty@, count);
    lemma_whole_row_cost(graph.design, weights, lists, cells, rival, graph.device, empty@, count);
    lemma_total_shift(
        graph,
        constraints,
        weights,
        units,
        unit,
        empty@,
        row,
        rival,
        graph.design.nets@.len() as int,
        0,
    );
}

/// Of the moves that a unit is offered, predicted-timing refinement takes the one after
/// which spans and costs weigh the least.
pub proof fn predicted_refinement_takes_the_best_move<E: PlacementDelayEstimator>(
    problem: DetailedProblem<'_, E>,
    first: DetailPoint,
    placed: Seq<Option<BelId>>,
    moving: int,
    costs: Map<usize, Option<Seq<Option<u128>>>>,
    bound: u128,
    choice: usize,
    partner: Option<usize>,
    other: usize,
    rival: Option<usize>,
)
    requires
        bbox_total(problem.graph, first.0) <= u128::MAX,
        timing_total(first.1) <= u128::MAX,
        problem.is_best(
            placed,
            moving,
            costs,
            normalizer_of(bbox_total(problem.graph, first.0), timing_total(first.1)),
            bound,
            choice,
            partner,
        ),
        problem.is_offered(placed, moving, other as int, rival),
        costs[other] is Some,
        problem.score(
            placed,
            moving,
            other,
            rival,
            costs[other],
            normalizer_of(bbox_total(problem.graph, first.0), timing_total(first.1)),
        ) is Some,
    ensures
        costs[choice] is Some,
        weighed(
            problem.graph,
            first,
            (problem.trial(placed, moving, choice as int, partner), costs[choice]->0),
        ) <= weighed(
            problem.graph,
            first,
            (problem.trial(placed, moving, other as int, rival), costs[other]->0),
        ),
{
    let normalizer = normalizer_of(bbox_total(problem.graph, first.0), timing_total(first.1));
    let value = problem.score(placed, moving, choice, partner, costs[choice], normalizer)->0;
    assert(problem.yields(placed, moving, costs, normalizer, other, rival, value, choice));
    lemma_weighed(
        problem,
        first,
        (problem.trial(placed, moving, choice as int, partner), costs[choice]->0),
    );
    lemma_weighed(
        problem,
        first,
        (problem.trial(placed, moving, other as int, rival), costs[other]->0),
    );
}

/// Of the open rows of a unit none would make the connection faster than the row that is
/// taken.
pub proof fn a_connection_move_takes_the_fastest_row(
    step: ConnectionMove<'_>,
    current: Seq<BelId>,
    occupied: Seq<bool>,
    placed: Seq<Option<BelId>>,
    distance: int,
    limit: u64,
    index: int,
    other: int,
    delay: u64,
)
    requires
        step.is_best(current, occupied, placed, distance, limit, index),
        opens(
            step.graph,
            step.constraints,
            *step.unit,
            step.column as int,
            current,
            occupied,
            placed,
            distance,
            other,
        ),
        step.delay_on(step.unit.choices.row(other)[step.column as int]) == Some(delay),
    ensures
        step.delay_on(step.unit.choices.row(index)[step.column as int]) matches Some(found)
            && found <= delay && found < limit,
{
    if delay < limit {
        assert(step.improves(current, occupied, placed, distance, limit, other));
        assert(!step.is_better(other, index));
    }
}

/// Units with fewer rows to choose from are placed first; of two with as many, the one
/// with more connections.
pub proof fn the_most_constrained_unit_is_placed_first(
    degree: Seq<usize>,
    units: Seq<PlacementUnit>,
    order: Seq<UnitOrder>,
    i: int,
    j: int,
)
    requires
        is_placing_order(degree, units, order),
        0 <= i < j < order.len(),
        units[order[i].index as int].choices.count() <= usize::MAX,
        units[order[j].index as int].choices.count() <= usize::MAX,
        0 <= units[order[i].index as int].choices.count(),
        0 <= units[order[j].index as int].choices.count(),
    ensures
        units[order[i].index as int].choices.count()
            <= units[order[j].index as int].choices.count(),
{
    assert(order[i].rank() <= order[j].rank());
    lemma_unit_digits(order[i], order[j]);
    assert(order[i] == crate::greedy::unit_order(
        degree,
        units[order[i].index as int],
        order[i].index as int,
    ));
    assert(order[j] == crate::greedy::unit_order(
        degree,
        units[order[j].index as int],
        order[j].index as int,
    ));
}

/// Units in order compare by their choices first.
proof fn lemma_unit_digits(a: UnitOrder, b: UnitOrder)
    requires
        a.rank() <= b.rank(),
    ensures
        a.choices <= b.choices,
{
}

/// By how much the first connections are above their targets together, with every cell
/// on the BEL that is bound to it.
pub open spec fn bound_excess(
    refiner: PlacementRefiner<'_>,
    bindings: Seq<BelId>,
    connections: Seq<(CellPinId, CellPinId)>,
    targets: Seq<u64>,
    delays: &[u32],
    count: int,
) -> int
    decreases count,
{
    if count <= 0 {
        0
    } else {
        bound_excess(refiner, bindings, connections, targets, delays, count - 1)
            + match bound_delay(refiner, bindings, connections[count - 1], delays) {
            Some(delay) => if delay > targets[count - 1] {
                delay - targets[count - 1]
            } else {
                0
            },
            None => 0,
        }
    }
}

/// The score of a row is the excess of the placement that it makes up.
proof fn lemma_bound_excess(
    refiner: PlacementRefiner<'_>,
    unit: int,
    start: Placement,
    later: Seq<BelId>,
    row: Seq<BelId>,
    moving: CellId,
    links: Seq<(CellPinId, CellPinId)>,
    targets: Seq<u64>,
    delays: &[u32],
    count: int,
)
    requires
        refiner.wf(),
        0 <= unit < refiner.units@.len(),
        start.bindings@.len() == refiner.graph.design.cells@.len(),
        cells_in_range(refiner.units@[unit].cells@, start.bindings@.len() as int),
        refiner.units@[unit].cells@.no_duplicates(),
        row.len() == refiner.units@[unit].cells@.len(),
        all_placed(later) == with_row(
            without_cells(all_placed(start.bindings@), refiner.units@[unit].cells@),
            refiner.units@[unit].cells@,
            row,
        ),
        0 <= count <= links.len(),
        total_excess(
            refiner.graph,
            refiner.constraints,
            refiner.units@[unit].cells@,
            row,
            moving,
            links.take(count),
            targets,
            without_cells(all_placed(start.bindings@), refiner.units@[unit].cells@),
            delays,
        ) is Some,
    ensures
        total_excess(
            refiner.graph,
            refiner.constraints,
            refiner.units@[unit].cells@,
            row,
            moving,
            links.take(count),
            targets,
            without_cells(all_placed(start.bindings@), refiner.units@[unit].cells@),
            delays,
        )->0 == clip_u64(bound_excess(refiner, later, links, targets, delays, count)),
        bound_excess(refiner, later, links, targets, delays, count) >= 0,
    decreases count,
{
    if count > 0 {
        assert(links.take(count).drop_last() =~= links.take(count - 1));
        assert(links.take(count).last() == links[count - 1]);
        lemma_bound_excess(
            refiner,
            unit,
            start,
            later,
            row,
            moving,
            links,
            targets,
            delays,
            count - 1,
        );
        lemma_link_delay(refiner, unit, start, later, row, moving, links[count - 1], delays);
    }
}

/// Near proposals come in the order of what they leave of the excess of all listed
/// connections above their targets, and each leaves less than there was.
pub proof fn near_proposals_lower_the_excess(
    refiner: PlacementRefiner<'_>,
    start: Placement,
    cell: CellId,
    connections: &[(CellPinId, CellPinId)],
    targets: &[u64],
    delays: &[u32],
    projection: Option<&RouteCapacityProjection>,
    distance: u64,
    max_candidates: usize,
    list: Vec<Placement>,
    i: int,
    j: int,
)
    requires
        refiner.wf(),
        distance <= 2,
        proposals_outcome(
            refiner,
            start,
            cell,
            connections,
            targets,
            delays,
            projection,
            distance,
            max_candidates,
            Ok(list),
        ),
        0 <= i <= j < list@.len(),
        bound_excess(
            refiner,
            start.bindings@,
            connections@,
            targets@,
            delays,
            connections@.len() as int,
        ) <= u64::MAX,
    ensures
        bound_excess(
            refiner,
            list@[i].bindings@,
            connections@,
            targets@,
            delays,
            connections@.len() as int,
        ) <= bound_excess(
            refiner,
            list@[j].bindings@,
            connections@,
            targets@,
            delays,
            connections@.len() as int,
        ) < bound_excess(
            refiner,
            start.bindings@,
            connections@,
            targets@,
            delays,
            connections@.len() as int,
        ),
{
    let (unit, step, current, occupied, placed) = lemma_proposed(
        refiner,
        start,
        cell,
        connections,
        targets,
        delays,
        projection,
        distance,
        max_candidates,
        list,
    );
    let (ranking, chosen) = choose|ranking: Seq<RankedRow>, chosen: Seq<RankedRow>|
        {
            &&& #[trigger] step.is_ranking(current, occupied, placed, ranking)
            &&& #[trigger] step.is_selection(placed, projection, max_candidates, ranking, chosen)
            &&& are_proposals(refiner, unit, start, chosen, list@)
        };
    assert(chosen == first_of(ranking, crate::cell_moves::at_least(max_candidates, 1) as int));
    lemma_current_row(refiner, unit, start, current, occupied, placed);
    let links = connections@;
    let count = links.len() as int;
    assert(links.take(count) =~= links);
    let a = lemma_ranked_excess(
        refiner,
        unit,
        start,
        step,
        cell,
        connections,
        targets,
        delays,
        distance,
        current,
        occupied,
        placed,
        ranking,
        chosen,
        list@,
        i,
    );
    let b = lemma_ranked_excess(
        refiner,
        unit,
        start,
        step,
        cell,
        connections,
        targets,
        delays,
        distance,
        current,
        occupied,
        placed,
        ranking,
        chosen,
        list@,
        j,
    );
    lemma_bound_excess(
        refiner,
        unit,
        start,
        start.bindings@,
        current,
        cell,
        links,
        targets@,
        delays,
        count,
    );
    if i < j {
        assert(crate::ranking::ranked_before(*step.unit, ranking[i], ranking[j]));
    }
}

/// The score of a ranked row is the excess of the proposal, and less than that of the
/// current row.
proof fn lemma_ranked_excess(
    refiner: PlacementRefiner<'_>,
    unit: int,
    start: Placement,
    step: CellMove<'_>,
    cell: CellId,
    connections: &[(CellPinId, CellPinId)],
    targets: &[u64],
    delays: &[u32],
    distance: u64,
    current: Seq<BelId>,
    occupied: Seq<bool>,
    placed: Seq<Option<BelId>>,
    ranking: Seq<RankedRow>,
    chosen: Seq<RankedRow>,
    list: Seq<Placement>,
    at: int,
) -> (score: int)
    requires
        refiner.wf(),
        0 <= unit < refiner.units@.len(),
        distance <= 2,
        crate::start::starts_legal(
            refiner.graph,
            refiner.constraints,
            refiner.units@,
            start.bindings@,
        ),
        crate::cell_refine::is_cell_move(
            refiner,
            unit,
            cell,
            connections,
            targets,
            delays,
            distance,
            step,
        ),
        is_lifted(refiner, unit, start, current, occupied, placed),
        step.is_ranking(current, occupied, placed, ranking),
        are_proposals(refiner, unit, start, chosen, list),
        chosen.len() <= ranking.len(),
        forall|k: int| 0 <= k < chosen.len() ==> #[trigger] chosen[k] == ranking[k],
        0 <= at < list.len(),
    ensures
        score == ranking[at].score,
        score == clip_u64(
            bound_excess(
                refiner,
                list[at].bindings@,
                connections@,
                targets@,
                delays,
                connections@.len() as int,
            ),
        ),
        total_excess(
            refiner.graph,
            refiner.constraints,
            refiner.units@[unit].cells@,
            current,
            cell,
            connections@,
            targets@,
            placed,
            delays,
        ) matches Some(known) && score < known,
{
    let index = ranking[at].choice as int;
    assert(chosen[at] == ranking[at]);
    let cells = refiner.units@[unit].cells@;
    let row = refiner.units@[unit].choices.row(index);
    assert(step.is_candidate(current, occupied, placed, index));
    assert(unit_moved(refiner, unit, start, index, list[at]));
    lemma_current_row(refiner, unit, start, current, occupied, placed);
    assert(refiner.units@[unit].wf(refiner.graph, refiner.constraints));
    assert(row.len() == cells.len());
    let links = connections@;
    let count = links.len() as int;
    assert(links.take(count) =~= links);
    lemma_bound_excess(
        refiner,
        unit,
        start,
        list[at].bindings@,
        row,
        cell,
        links,
        targets@,
        delays,
        count,
    );
    ranking[at].score as int
}

} // verus!
