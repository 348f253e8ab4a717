//! What predicted-timing refinement weighs, and that it only ever gains.

use vstd::prelude::*;

use crate::bbox::bounds_are_extremes;
use crate::candidates::choice_pin;
use crate::detail::DetailedProblem;
use crate::detail_costs::{arc_values, bbox_total, prices_arc, spans, timing_total, total};
use crate::device::UnifiedGraph;
use crate::finish::all_placed;
use crate::model::{BelId, CellId, Connection, ResourceKind};
use crate::neighbors::PlacementNeighbor;
use crate::net_span::{coordinates, endpoints, lemma_cell_hits, lemma_hit_has_cell, net_span};
use crate::ordered::OrderedMap;
use crate::place::by_sink;
use crate::placement::Placement;
use crate::predicted::{
    is_predicted, is_problem, normalizer_of, predicted_from, predicted_outcome, DetailPass,
    DetailPoint, PredictedPlacementPasses,
};
use crate::refine_passes::RefineOrder;
use crate::refiner::{PlacementDelayEstimator, PlacementRefiner};
use crate::net_span::Axis;
use crate::targets::TimingArc;

verus! {

/// The cost of a timed connection where its ends are bound: nothing on a clock net, and
/// otherwise the delay that the estimator gives the two bound pins, times what the
/// criticality in the caller's table is above one. It has none where a pin has no place.
pub open spec fn is_arc_cost<E: PlacementDelayEstimator>(
    refiner: PlacementRefiner<'_>,
    criticalities: Map<Connection, u64>,
    estimator: &E,
    bindings: Seq<BelId>,
    arc: Connection,
    cost: Option<u128>,
) -> bool {
    let design = refiner.graph.design;
    let driver = design.nets@[arc.net.0 as int].driver;
    let from = design.pins@[driver.0 as int].cell;
    let to = design.pins@[arc.sink.0 as int].cell;
    let a = bindings[from.0 as int];
    let b = bindings[to.0 as int];
    if design.cells@[from.0 as int].kind == ResourceKind::Clock {
        cost == Some(0u128)
    } else {
        match (
            choice_pin(refiner.graph, refiner.constraints, driver, a),
            choice_pin(refiner.graph, refiner.constraints, arc.sink, b),
        ) {
            (Some(p), Some(q)) => cost matches Some(price) && exists|delay: u64|
                #[trigger] call_ensures(E::estimate_delay_ps, (estimator, a, p, b, q), delay)
                    && price == delay * criticalities[arc] - delay,
            _ => cost is None,
        }
    }
}

/// Connections are priced by the estimator and the caller's table.
pub proof fn an_arc_costs_delay_times_criticality<E: PlacementDelayEstimator>(
    refiner: PlacementRefiner<'_>,
    criticalities: Map<Connection, u64>,
    estimator: &E,
    bindings: Seq<BelId>,
    timing: TimingArc,
    cost: Option<u128>,
)
    requires
        refiner.graph.design.wf(),
        bindings.len() == refiner.graph.design.cells@.len(),
        timing.arc.net.0 < refiner.graph.design.nets@.len(),
        timing.arc.sink.0 < refiner.graph.design.pins@.len(),
        timing.criticality == criticalities[timing.arc],
        prices_arc(
            refiner.graph,
            refiner.constraints,
            estimator,
            timing,
            all_placed(bindings),
            cost,
        ),
    ensures
        is_arc_cost(refiner, criticalities, estimator, bindings, timing.arc, cost),
{
    let design = refiner.graph.design;
    let driver = design.nets@[timing.arc.net.0 as int].driver;
    let from = design.pins@[driver.0 as int].cell;
    let to = design.pins@[timing.arc.sink.0 as int].cell;
    assert(from.0 < design.cells@.len());
    assert(to.0 < design.cells@.len());
    let placed = all_placed(bindings);
    assert(placed[from.0 as int] == Some(bindings[from.0 as int]));
    assert(placed[to.0 as int] == Some(bindings[to.0 as int]));
    if design.cells@[from.0 as int].kind != ResourceKind::Clock {
        if let Some(ends) = crate::detail_costs::arc_ends_at(
            refiner.graph,
            refiner.constraints,
            placed,
            timing.arc,
        ) {
            let price = cost->0;
            let delay = choose|delay: u64|
                #[trigger] crate::detail_costs::is_estimate(estimator, ends, delay) && price
                    == delay * (timing.criticality - 1);
            assert(delay * (timing.criticality - 1) == delay * timing.criticality - delay)
                by (nonlinear_arith);
            assert(call_ensures(
                E::estimate_delay_ps,
                (estimator, ends.0, ends.1, ends.2, ends.3),
                delay,
            ));
        }
    }
}

/// The two coordinates bound those of the driver and of every sink of the net, and each
/// of them is that of one.
pub open spec fn bounds_axis(
    graph: UnifiedGraph<'_>,
    bindings: Seq<BelId>,
    net: int,
    axis: Axis,
    least: u32,
    greatest: u32,
) -> bool {
    let at = |cell: CellId|
        match axis {
            Axis::Column => graph.device.bels@[bindings[cell.0 as int].0 as int].point.x,
            Axis::Row => graph.device.bels@[bindings[cell.0 as int].0 as int].point.y,
        };
    let record = graph.design.nets@[net];
    let driver = graph.design.pins@[record.driver.0 as int].cell;
    let sink = |k: int| graph.design.pins@[record.sinks@[k].0 as int].cell;
    &&& least <= at(driver) <= greatest
    &&& forall|k: int|
        0 <= k < record.sinks@.len() ==> least <= #[trigger] at(sink(k)) <= greatest
    &&& at(driver) == least || exists|k: int|
        0 <= k < record.sinks@.len() && #[trigger] at(sink(k)) == least
    &&& at(driver) == greatest || exists|k: int|
        0 <= k < record.sinks@.len() && #[trigger] at(sink(k)) == greatest
}

/// The coordinates of a net's cells are bounded by the extremes of its driver and sinks.
proof fn lemma_axis(
    graph: UnifiedGraph<'_>,
    bindings: Seq<BelId>,
    net: int,
    axis: Axis,
    least: u32,
    greatest: u32,
)
    requires
        graph.design.wf(),
        bindings.len() == graph.design.cells@.len(),
        0 <= net < graph.design.nets@.len(),
        !crate::net_span::is_clock_net(graph.design, net),
        bounds_axis(graph, bindings, net, axis, least, greatest),
    ensures
        crate::bbox::extent_of(
            coordinates(endpoints(graph.design, net), graph.device, all_placed(bindings), axis),
        ) == greatest - least,
{
    let at = |cell: CellId|
        match axis {
            Axis::Column => graph.device.bels@[bindings[cell.0 as int].0 as int].point.x,
            Axis::Row => graph.device.bels@[bindings[cell.0 as int].0 as int].point.y,
        };
    let record = graph.design.nets@[net];
    let driver = graph.design.pins@[record.driver.0 as int].cell;
    let sink = |k: int| graph.design.pins@[record.sinks@[k].0 as int].cell;
    let cells = endpoints(graph.design, net);
    let placed = all_placed(bindings);
    let set = coordinates(cells, graph.device, placed, axis);
    assert(cells[0] == driver);
    assert forall|k: int| 0 <= k < cells.len() implies (#[trigger] cells[k]).0 < bindings.len()
        && placed[cells[k].0 as int] == Some(bindings[cells[k].0 as int]) by {
        if k > 0 {
            assert(cells[k] == sink(k - 1));
            assert(record.sinks@[k - 1].0 < graph.design.pins@.len());
        } else {
            assert(record.driver.0 < graph.design.pins@.len());
        }
    }
    assert forall|c: u32| #[trigger] set.contains(c) implies least <= c <= greatest by {
        let k = lemma_hit_has_cell(cells, graph.device, placed, axis, c);
        assert(cells[k].0 < bindings.len());
        if k > 0 {
            assert(cells[k] == sink(k - 1));
            assert(at(sink(k - 1)) == c);
        } else {
            assert(at(driver) == c);
        }
    }
    assert forall|c: u32|
        (at(driver) == c || exists|k: int|
            0 <= k < record.sinks@.len() && #[trigger] at(sink(k)) == c) implies #[trigger] set.contains(c) by {
        if at(driver) == c {
            lemma_cell_hits(cells, graph.device, placed, axis, c, 0);
        } else {
            let k = choose|k: int| 0 <= k < record.sinks@.len() && #[trigger] at(sink(k)) == c;
            assert(cells[k + 1] == sink(k));
            assert(cells[k + 1].0 < bindings.len());
            lemma_cell_hits(cells, graph.device, placed, axis, c, k + 1);
        }
    }
    assert(set.contains(least));
    assert(set.contains(greatest));
    bounds_are_extremes(set, least, greatest);
}

/// The span of a net that no clock drives is half the perimeter of the rectangle of its
/// driver and its sinks; a clock net has none.
pub proof fn a_span_is_half_a_perimeter(
    graph: UnifiedGraph<'_>,
    bindings: Seq<BelId>,
    net: int,
    columns: (u32, u32),
    rows: (u32, u32),
)
    requires
        graph.design.wf(),
        bindings.len() == graph.design.cells@.len(),
        0 <= net < graph.design.nets@.len(),
        bounds_axis(graph, bindings, net, Axis::Column, columns.0, columns.1),
        bounds_axis(graph, bindings, net, Axis::Row, rows.0, rows.1),
    ensures
        graph.design.cells@[graph.design.pins@[graph.design.nets@[net].driver.0 as int].cell.0 as int].kind
            != ResourceKind::Clock ==> net_span(graph, all_placed(bindings), net) == (columns.1
            - columns.0) + (rows.1 - rows.0),
        graph.design.cells@[graph.design.pins@[graph.design.nets@[net].driver.0 as int].cell.0 as int].kind
            == ResourceKind::Clock ==> net_span(graph, all_placed(bindings), net) == 0,
{
    if crate::net_span::is_clock_net(graph.design, net) {
        let cells = endpoints(graph.design, net);
        assert forall|axis: Axis|
            coordinates(cells, graph.device, all_placed(bindings), axis) == Set::<u32>::empty() by {
            assert(coordinates(cells, graph.device, all_placed(bindings), axis) =~= Set::<
                u32,
            >::empty());
        }
    } else {
        lemma_axis(graph, bindings, net, Axis::Column, columns.0, columns.1);
        lemma_axis(graph, bindings, net, Axis::Row, rows.0, rows.1);
    }
}

/// Sum of the spans of the first nets.
pub open spec fn span_sum(graph: UnifiedGraph<'_>, placed: Seq<Option<BelId>>, count: int) -> int
    decreases count,
{
    if count <= 0 {
        0
    } else {
        span_sum(graph, placed, count - 1) + net_span(graph, placed, count - 1)
    }
}

/// Sum of the first known costs.
pub open spec fn cost_sum(costs: Seq<Option<u128>>, count: int) -> int
    decreases count,
{
    if count <= 0 {
        0
    } else {
        cost_sum(costs, count - 1) + match costs[count - 1] {
            Some(cost) => cost as int,
            None => 0,
        }
    }
}

/// The number, and at least one.
pub open spec fn at_least_one(value: int) -> int {
    if value < 1 {
        1
    } else {
        value
    }
}

/// Spans and costs, each weighed by what the other added up to in the beginning.
pub open spec fn weighed(
    graph: UnifiedGraph<'_>,
    first: (Seq<Option<BelId>>, Seq<Option<u128>>),
    now: (Seq<Option<BelId>>, Seq<Option<u128>>),
) -> int {
    let nets = graph.design.nets@.len() as int;
    span_sum(graph, now.0, nets) * at_least_one(cost_sum(first.1, first.1.len() as int))
        + cost_sum(now.1, now.1.len() as int) * at_least_one(span_sum(graph, first.0, nets))
}

/// Both ways of summing agree.
proof fn lemma_total_first(values: Seq<int>, count: int)
    requires
        0 < count <= values.len(),
    ensures
        total(values.take(count)) == total(values.take(count - 1)) + values[count - 1],
{
    assert(values.take(count).drop_last() =~= values.take(count - 1));
}

/// The spans add up to the whole.
proof fn lemma_span_sum(graph: UnifiedGraph<'_>, placed: Seq<Option<BelId>>, count: int)
    requires
        0 <= count <= graph.design.nets@.len(),
    ensures
        span_sum(graph, placed, count) == total(spans(graph, placed).take(count)),
    decreases count,
{
    if count > 0 {
        lemma_span_sum(graph, placed, count - 1);
        lemma_total_first(spans(graph, placed), count);
    } else {
        assert(spans(graph, placed).take(0).len() == 0);
    }
}

/// The costs add up to the whole.
proof fn lemma_cost_sum(costs: Seq<Option<u128>>, count: int)
    requires
        0 <= count <= costs.len(),
    ensures
        cost_sum(costs, count) == total(arc_values(costs).take(count)),
    decreases count,
{
    if count > 0 {
        lemma_cost_sum(costs, count - 1);
        lemma_total_first(arc_values(costs), count);
    } else {
        assert(arc_values(costs).take(0).len() == 0);
    }
}

/// The objective is what is weighed.
pub(crate) proof fn lemma_weighed<E: PlacementDelayEstimator>(
    problem: DetailedProblem<'_, E>,
    first: DetailPoint,
    now: DetailPoint,
)
    requires
        bbox_total(problem.graph, first.0) <= u128::MAX,
        timing_total(first.1) <= u128::MAX,
        problem.value_of(
            now.0,
            now.1,
            normalizer_of(bbox_total(problem.graph, first.0), timing_total(first.1)),
        ) is Some,
    ensures
        problem.value_of(
            now.0,
            now.1,
            normalizer_of(bbox_total(problem.graph, first.0), timing_total(first.1)),
        )->0 == weighed(problem.graph, first, now),
{
    let nets = problem.graph.design.nets@.len() as int;
    lemma_span_sum(problem.graph, first.0, nets);
    lemma_span_sum(problem.graph, now.0, nets);
    lemma_cost_sum(first.1, first.1.len() as int);
    lemma_cost_sum(now.1, now.1.len() as int);
    assert(spans(problem.graph, first.0).take(nets) =~= spans(problem.graph, first.0));
    assert(spans(problem.graph, now.0).take(nets) =~= spans(problem.graph, now.0));
    assert(arc_values(first.1).take(first.1.len() as int) =~= arc_values(first.1));
    assert(arc_values(now.1).take(now.1.len() as int) =~= arc_values(now.1));
    let normalizer = normalizer_of(bbox_total(problem.graph, first.0), timing_total(first.1));
    let bbox = bbox_total(problem.graph, now.0);
    let timing = timing_total(now.1);
    crate::detail_costs::lemma_total_positive(arc_values(now.1));
    crate::detail_costs::lemma_bbox_fits(problem.graph, now.0);
    assert(bbox * normalizer.1 >= 0) by (nonlinear_arith)
        requires
            bbox >= 0,
            normalizer.1 >= 0,
    ;
    assert(timing * normalizer.0 >= 0) by (nonlinear_arith)
        requires
            timing >= 0,
            normalizer.0 >= 0,
    ;
}

/// The later point is the earlier one, or weighs less.
pub open spec fn keeps_or_gains(
    graph: UnifiedGraph<'_>,
    first: DetailPoint,
    before: DetailPoint,
    after: DetailPoint,
) -> bool {
    after == before || weighed(graph, first, after) < weighed(graph, first, before)
}

/// The first offers of a pass keep the point, or gain.
proof fn lemma_pass_gains<E: PlacementDelayEstimator>(
    problem: DetailedProblem<'_, E>,
    order: Seq<RefineOrder>,
    first: DetailPoint,
    pass: DetailPass,
    count: int,
)
    requires
        bbox_total(problem.graph, first.0) <= u128::MAX,
        timing_total(first.1) <= u128::MAX,
        problem.is_detail_pass(
            order,
            normalizer_of(bbox_total(problem.graph, first.0), timing_total(first.1)),
            pass,
        ),
        problem.value_of(
            pass.0[0].0,
            pass.0[0].1,
            normalizer_of(bbox_total(problem.graph, first.0), timing_total(first.1)),
        ) is Some,
        0 <= count < pass.0.len(),
    ensures
        problem.value_of(
            pass.0[count].0,
            pass.0[count].1,
            normalizer_of(bbox_total(problem.graph, first.0), timing_total(first.1)),
        ) is Some,
        keeps_or_gains(problem.graph, first, pass.0[0], pass.0[count]),
    decreases count,
{
    if count > 0 {
        let normalizer = normalizer_of(bbox_total(problem.graph, first.0), timing_total(first.1));
        lemma_pass_gains(problem, order, first, pass, count - 1);
        let at = count - 1;
        assert(problem.is_detail_offer(order, normalizer, pass, at));
        let unit = order[at].index as int;
        if pass.1[at] {
            problem.taken_move_lowers_objective(
                pass.0[at].0,
                pass.0[at].1,
                unit,
                normalizer,
                pass.0[count].0,
                pass.0[count].1,
            );
            lemma_weighed(problem, first, pass.0[at]);
            lemma_weighed(problem, first, pass.0[count]);
        } else {
            assert(pass.0[count].0 == pass.0[at].0);
            assert(pass.0[count].1 == pass.0[at].1);
            assert(pass.0[count] == pass.0[at]);
        }
    }
}

/// The first passes keep the point, or gain.
proof fn lemma_run_gains<E: PlacementDelayEstimator>(
    problem: DetailedProblem<'_, E>,
    order: Seq<RefineOrder>,
    first: DetailPoint,
    record: Seq<DetailPass>,
    at: int,
)
    requires
        bbox_total(problem.graph, first.0) <= u128::MAX,
        timing_total(first.1) <= u128::MAX,
        problem.are_detail_passes(
            order,
            normalizer_of(bbox_total(problem.graph, first.0), timing_total(first.1)),
            record,
        ),
        0 <= at < record.len(),
        record[0].0[0] == first,
        problem.value_of(
            first.0,
            first.1,
            normalizer_of(bbox_total(problem.graph, first.0), timing_total(first.1)),
        ) is Some,
    ensures
        problem.value_of(
            record[at].0.last().0,
            record[at].0.last().1,
            normalizer_of(bbox_total(problem.graph, first.0), timing_total(first.1)),
        ) is Some,
        keeps_or_gains(problem.graph, first, first, record[at].0.last()),
    decreases at,
{
    let normalizer = normalizer_of(bbox_total(problem.graph, first.0), timing_total(first.1));
    assert(problem.is_detail_pass(order, normalizer, record[at]));
    if at > 0 {
        lemma_run_gains(problem, order, first, record, at - 1);
        assert(record[at - 1].0.last() == record[at].0[0]);
    }
    lemma_pass_gains(problem, order, first, record[at], record[at].0.len() - 1);
}

/// Predicted-timing refinement keeps the placement, or gains: the spans of all nets and
/// the costs of all timed connections, each weighed by what the other added up to in the
/// beginning, add up to less. The timed connections are those whose entry in the
/// caller's table is above one, and their first costs are those of the placement that
/// was given.
pub proof fn predicted_refinement_keeps_or_gains<E: PlacementDelayEstimator>(
    refiner: PlacementRefiner<'_>,
    criticalities: &OrderedMap<Connection, u64>,
    estimator: &E,
    passes: PredictedPlacementPasses,
    start: Placement,
    placement: Placement,
    moved: usize,
) -> (found: (Seq<TimingArc>, Seq<Option<u128>>, Seq<Option<u128>>))
    requires
        refiner.wf(),
        predicted_outcome(
            refiner,
            criticalities,
            estimator,
            passes,
            start,
            Ok((placement, moved)),
        ),
    ensures
        found.1.len() == found.0.len(),
        forall|i: int|
            0 <= i < found.0.len() ==> {
                let arc = (#[trigger] found.0[i]).arc;
                &&& criticalities@.contains_key(arc)
                &&& criticalities@[arc] > 1
                &&& is_arc_cost(
                    refiner,
                    criticalities@,
                    estimator,
                    start.bindings@,
                    arc,
                    found.1[i],
                )
            },
        forall|arc: Connection| #[trigger]
            criticalities@.contains_key(arc) && criticalities@[arc] > 1 && arc.net.0
                < refiner.graph.design.nets@.len() && arc.sink.0
                < refiner.graph.design.pins@.len() ==> exists|i: int|
                0 <= i < found.0.len() && (#[trigger] found.0[i]).arc == arc,
        placement.bindings@ == start.bindings@ && found.2 == found.1 || weighed(
            refiner.graph,
            (all_placed(start.bindings@), found.1),
            (all_placed(placement.bindings@), found.2),
        ) < weighed(
            refiner.graph,
            (all_placed(start.bindings@), found.1),
            (all_placed(start.bindings@), found.1),
        ),
{
    let weights = by_sink(criticalities, None);
    let (problem, timing) = choose|problem: DetailedProblem<'_, E>, timing: Seq<Option<u128>>|
        {
            &&& is_problem(refiner, criticalities@, estimator, problem)
            &&& #[trigger] problem.are_first_costs(all_placed(start.bindings@), timing)
            &&& predicted_from(
                refiner,
                problem,
                weights,
                passes,
                start,
                timing,
                Ok((placement, moved)),
            )
        };
    let placed = all_placed(start.bindings@);
    let first: DetailPoint = (placed, timing);
    let (lists, order, after) = choose|
        lists: Seq<Vec<PlacementNeighbor>>,
        order: Seq<RefineOrder>,
        after: DetailPoint,
    |
        #[trigger] is_predicted(
            refiner,
            problem,
            weights,
            passes,
            first,
            lists,
            order,
            after,
            (placement, moved),
        );
    let normalizer = normalizer_of(bbox_total(refiner.graph, placed), timing_total(timing));
    let record = choose|record: Seq<DetailPass>|
        {
            &&& #[trigger] problem.are_detail_passes(order, normalizer, record)
            &&& record.len() > 0
            &&& record[0].0[0] == first
            &&& record.last().0.last() == after
        };
    crate::detail_costs::lemma_bbox_fits(refiner.graph, placed);
    lemma_run_gains(problem, order, first, record, record.len() - 1);
    let arcs = problem.arcs@;
    assert forall|i: int| 0 <= i < arcs.len() implies {
        let arc = (#[trigger] arcs[i]).arc;
        &&& criticalities@.contains_key(arc)
        &&& criticalities@[arc] > 1
        &&& is_arc_cost(refiner, criticalities@, estimator, start.bindings@, arc, timing[i])
    } by {
        assert(prices_arc(
            problem.graph,
            problem.constraints,
            problem.estimator,
            arcs[i],
            placed,
            timing[i],
        ));
        an_arc_costs_delay_times_criticality(
            refiner,
            criticalities@,
            estimator,
            start.bindings@,
            arcs[i],
            timing[i],
        );
    }
    assert forall|arc: Connection| #[trigger]
        criticalities@.contains_key(arc) && criticalities@[arc] > 1 && arc.net.0
            < refiner.graph.design.nets@.len() && arc.sink.0
            < refiner.graph.design.pins@.len() implies exists|i: int|
        0 <= i < arcs.len() && (#[trigger] arcs[i]).arc == arc by {
        assert(crate::incidents::is_timed(refiner.graph, criticalities@, arc));
        assert(crate::incidents::has_arc(arcs, arc));
    }
    let x = placement.bindings@;
    assert(after.0 == all_placed(x));
    if after == first {
        assert(all_placed(x).len() == x.len());
        assert(placed.len() == start.bindings@.len());
        assert forall|c: int| 0 <= c < x.len() implies x[c] == start.bindings@[c] by {
            assert(all_placed(x)[c] == Some(x[c]));
            assert(placed[c] == Some(start.bindings@[c]));
        }
        assert(x =~= start.bindings@);
    }
    (arcs, timing, after.1)
}

} // verus!
