//! Wirelength and timing costs of detailed placement.

use vstd::prelude::*;

use crate::candidates::{candidate_bel_pin, choice_pin};
use crate::connection_cost::find_column;
use crate::device::UnifiedGraph;
use crate::model::{BelId, BelPinId, CellId, Connection, ResourceKind};
use crate::net_span::{driver_cell, endpoints, is_clock_net, lemma_endpoints, net_cells, net_span};
use crate::placement_constraints::PlacementConstraints;
use crate::refiner::PlacementDelayEstimator;
use crate::targets::{sink_cell, TimingArc};
use crate::usage_model::{cells_in_range, lemma_with_row, with_row};

verus! {

/// Physical ends of an arc under a placement.
pub open spec fn arc_ends_at(
    graph: UnifiedGraph<'_>,
    constraints: &PlacementConstraints,
    placed: Seq<Option<BelId>>,
    arc: Connection,
) -> Option<(BelId, BelPinId, BelId, BelPinId)> {
    let driver = graph.design.nets@[arc.net.0 as int].driver;
    match (
        placed[driver_cell(graph.design, arc.net.0 as int).0 as int],
        placed[sink_cell(graph, arc).0 as int],
    ) {
        (Some(a), Some(b)) => match (
            choice_pin(graph, constraints, driver, a),
            choice_pin(graph, constraints, arc.sink, b),
        ) {
            (Some(p), Some(q)) => Some((a, p, b, q)),
            _ => None,
        },
        _ => None,
    }
}

/// The estimator gives the ends this delay.
pub open spec fn is_estimate<E: PlacementDelayEstimator>(
    estimator: &E,
    ends: (BelId, BelPinId, BelId, BelPinId),
    delay: u64,
) -> bool {
    call_ensures(
        E::estimate_delay_ps,
        (estimator, ends.0, ends.1, ends.2, ends.3),
        delay,
    )
}

/// The price is a predicted delay times the criticality above the baseline.
pub open spec fn is_price<E: PlacementDelayEstimator>(
    estimator: &E,
    ends: (BelId, BelPinId, BelId, BelPinId),
    criticality: u64,
    price: u128,
) -> bool {
    exists|delay: u64|
        #[trigger] is_estimate(estimator, ends, delay) && price == delay * (criticality - 1)
}

/// The cost of an arc: its predicted delay times its criticality above the
/// baseline. An arc of a clock costs nothing; one without ends has no cost.
pub open spec fn prices_arc<E: PlacementDelayEstimator>(
    graph: UnifiedGraph<'_>,
    constraints: &PlacementConstraints,
    estimator: &E,
    timing: TimingArc,
    placed: Seq<Option<BelId>>,
    cost: Option<u128>,
) -> bool {
    if is_clock_net(graph.design, timing.arc.net.0 as int) {
        cost == Some(0u128)
    } else {
        match arc_ends_at(graph, constraints, placed, timing.arc) {
            None => cost is None,
            Some(ends) => cost matches Some(price) && is_price(
                estimator,
                ends,
                timing.criticality,
                price,
            ),
        }
    }
}

/// Where the ends of an arc stand as before, a cost stays one.
pub proof fn lemma_price_stays<E: PlacementDelayEstimator>(
    graph: UnifiedGraph<'_>,
    constraints: &PlacementConstraints,
    estimator: &E,
    timing: TimingArc,
    before: Seq<Option<BelId>>,
    after: Seq<Option<BelId>>,
    cost: Option<u128>,
)
    requires
        prices_arc(graph, constraints, estimator, timing, before, cost),
        before[driver_cell(graph.design, timing.arc.net.0 as int).0 as int] == after[driver_cell(
            graph.design,
            timing.arc.net.0 as int,
        ).0 as int],
        before[sink_cell(graph, timing.arc).0 as int] == after[sink_cell(
            graph,
            timing.arc,
        ).0 as int],
    ensures
        prices_arc(graph, constraints, estimator, timing, after, cost),
{
}

/// BEL of a cell after the cells move to the row.
fn detailed_assignment_bel(
    cell: CellId,
    cells: &Vec<CellId>,
    row: &Vec<BelId>,
    placed: &Vec<Option<BelId>>,
) -> (result: Option<BelId>)
    requires
        cells@.len() == row@.len(),
        cells@.no_duplicates(),
        cells_in_range(cells@, placed@.len() as int),
        cell.0 < placed@.len(),
    ensures
        result == with_row(placed@, cells@, row@)[cell.0 as int],
{
    proof {
        lemma_with_row(placed@, cells@, row@);
        assert(CellId((cell.0 as int) as usize) == cell);
    }
    match find_column(cells, cell) {
        Some(column) => {
            assert(with_row(placed@, cells@, row@)[cells@[column as int].0 as int] == Some(
                row@[column as int],
            ));
            Some(row[column])
        },
        None => placed[cell.0],
    }
}

/// Cost of an arc after the cells move to the row.
pub(crate) fn candidate_arc_timing_cost<E: PlacementDelayEstimator>(
    graph: &UnifiedGraph<'_>,
    constraints: &PlacementConstraints,
    cells: &Vec<CellId>,
    row: &Vec<BelId>,
    placed: &Vec<Option<BelId>>,
    timing: TimingArc,
    estimator: &E,
) -> (result: Option<u128>)
    requires
        graph.wf(),
        constraints.wf(),
        placed@.len() == graph.design.cells@.len(),
        cells@.len() == row@.len(),
        cells@.no_duplicates(),
        cells_in_range(cells@, placed@.len() as int),
        timing.arc.net.0 < graph.design.nets@.len(),
        timing.arc.sink.0 < graph.design.pins@.len(),
        timing.criticality > 1,
    ensures
        prices_arc(
            *graph,
            constraints,
            estimator,
            timing,
            with_row(placed@, cells@, row@),
            result,
        ),
{
    let design = graph.design();
    proof {
        lemma_endpoints(design, timing.arc.net.0 as int);
        assert(design.nets@[timing.arc.net.0 as int].driver.0 < design.pins@.len());
        assert(net_cells(design, timing.arc.net.0 as int)[0].0 < design.cells@.len());
        assert(design.pins@[timing.arc.sink.0 as int].cell.0 < design.cells@.len());
    }
    let driver = design.nets[timing.arc.net.0].driver;
    let driver_at = design.pins[driver.0].cell;
    let sink_at = design.pins[timing.arc.sink.0].cell;
    match design.cells[driver_at.0].kind {
        ResourceKind::Clock => {
            return Some(0u128);
        },
        _ => {},
    }
    assert(!is_clock_net(design, timing.arc.net.0 as int));
    let driver_bel: BelId = match detailed_assignment_bel(driver_at, cells, row, placed) {
        Some(bel) => bel,
        None => {
            return None;
        },
    };
    let sink_bel: BelId = match detailed_assignment_bel(sink_at, cells, row, placed) {
        Some(bel) => bel,
        None => {
            return None;
        },
    };
    match (
        candidate_bel_pin(graph, constraints, driver, driver_bel),
        candidate_bel_pin(graph, constraints, timing.arc.sink, sink_bel),
    ) {
        (Some(driver_pin), Some(sink_pin)) => {
            let delay: u64 = estimator.estimate_delay_ps(
                driver_bel,
                driver_pin,
                sink_bel,
                sink_pin,
            );
            let above: u64 = timing.criticality - 1;
            assert(is_estimate(estimator, (driver_bel, driver_pin, sink_bel, sink_pin), delay));
            assert(0 <= delay * above <= u128::MAX) by (nonlinear_arith)
                requires
                    0 <= delay <= u64::MAX,
                    0 <= above <= u64::MAX,
            ;
            let cost: u128 = delay as u128 * above as u128;
            proof {
                let ends = (driver_bel, driver_pin, sink_bel, sink_pin);
                assert(arc_ends_at(
                    *graph,
                    constraints,
                    with_row(placed@, cells@, row@),
                    timing.arc,
                ) == Some(ends));
                assert(cost == delay * (timing.criticality - 1));
                assert(is_estimate(estimator, ends, delay) && cost == delay * (timing.criticality
                    - 1));
                assert(is_price(estimator, ends, timing.criticality, cost));
            }
            Some(cost)
        },
        _ => {
            assert(arc_ends_at(
                *graph,
                constraints,
                with_row(placed@, cells@, row@),
                timing.arc,
            ) is None);
            None
        },
    }
}

/// Sum of the numbers.
pub open spec fn total(values: Seq<int>) -> int
    decreases values.len(),
{
    if values.len() == 0 {
        0
    } else {
        total(values.drop_last()) + values.last()
    }
}

/// Sum of the numbers at some positions.
pub open spec fn partial_total(values: Seq<int>, positions: Seq<int>) -> int
    decreases positions.len(),
{
    if positions.len() == 0 {
        0
    } else {
        partial_total(values, positions.drop_last()) + values[positions.last()]
    }
}

/// One number changes the sum by as much as it changes.
pub proof fn lemma_total_update(values: Seq<int>, index: int, value: int)
    requires
        0 <= index < values.len(),
    ensures
        total(values.update(index, value)) == total(values) - values[index] + value,
    decreases values.len(),
{
    let after = values.update(index, value);
    if index == values.len() - 1 {
        assert(after.drop_last() =~= values.drop_last());
    } else {
        lemma_total_update(values.drop_last(), index, value);
        assert(after.drop_last() =~= values.drop_last().update(index, value));
    }
}

/// Sums of numbers that are not negative are not negative.
pub proof fn lemma_total_positive(values: Seq<int>)
    requires
        forall|i: int| 0 <= i < values.len() ==> #[trigger] values[i] >= 0,
    ensures
        total(values) >= 0,
        forall|i: int| 0 <= i < values.len() ==> #[trigger] values[i] <= total(values),
    decreases values.len(),
{
    if values.len() > 0 {
        let rest = values.drop_last();
        assert forall|i: int| 0 <= i < rest.len() implies #[trigger] rest[i] >= 0 by {
            assert(rest[i] == values[i]);
        }
        lemma_total_positive(rest);
        assert(values[values.len() - 1] >= 0);
        assert forall|i: int| 0 <= i < values.len() implies #[trigger] values[i] <= total(
            values,
        ) by {
            if i < rest.len() {
                assert(rest[i] <= total(rest));
            }
        }
    }
}

/// Parts of the sum depend on the numbers at their positions.
pub proof fn lemma_partial_agrees(a: Seq<int>, b: Seq<int>, positions: Seq<int>)
    requires
        forall|k: int| 0 <= k < positions.len() ==> a[#[trigger] positions[k]] == b[positions[k]],
    ensures
        partial_total(a, positions) == partial_total(b, positions),
    decreases positions.len(),
{
    if positions.len() > 0 {
        let rest = positions.drop_last();
        assert forall|k: int| 0 <= k < rest.len() implies a[#[trigger] rest[k]] == b[rest[k]] by {
            assert(rest[k] == positions[k]);
        }
        lemma_partial_agrees(a, b, rest);
        assert(a[positions[positions.len() - 1]] == b[positions[positions.len() - 1]]);
    }
}

/// Numbers that differ at some positions have sums that differ by the parts
/// there.
pub proof fn lemma_total_replaced(a: Seq<int>, b: Seq<int>, positions: Seq<int>)
    requires
        a.len() == b.len(),
        positions.no_duplicates(),
        forall|k: int| 0 <= k < positions.len() ==> 0 <= #[trigger] positions[k] < a.len(),
        forall|i: int|
            0 <= i < a.len() && !positions.contains(i) ==> #[trigger] a[i] == b[i],
    ensures
        total(b) == total(a) - partial_total(a, positions) + partial_total(b, positions),
    decreases positions.len(),
{
    if positions.len() == 0 {
        assert forall|i: int| 0 <= i < a.len() implies #[trigger] a[i] == b[i] by {
            assert(!positions.contains(i));
        }
        assert(a =~= b);
    } else {
        let last = positions.last();
        let rest = positions.drop_last();
        assert(0 <= positions[positions.len() - 1] < a.len());
        let middle = b.update(last, a[last]);
        assert forall|i: int| 0 <= i < a.len() && !rest.contains(i) implies #[trigger] a[i]
            == middle[i] by {
            if i != last {
                assert(!positions.contains(i)) by {
                    if positions.contains(i) {
                        let k = positions.index_of(i);
                        assert(rest[k] == i);
                    }
                }
            }
        }
        assert forall|k: int| 0 <= k < rest.len() implies 0 <= #[trigger] rest[k] < a.len() by {
            assert(rest[k] == positions[k]);
        }
        assert forall|k: int| 0 <= k < rest.len() implies middle[#[trigger] rest[k]]
            == b[rest[k]] by {
            assert(rest[k] == positions[k]);
            assert(positions[k] != positions[positions.len() - 1]);
        }
        lemma_total_replaced(a, middle, rest);
        lemma_partial_agrees(middle, b, rest);
        lemma_total_update(b, last, a[last]);
    }
}

/// Parts of a sum of numbers that are not negative are no greater than the sum.
pub proof fn lemma_partial_bounded(values: Seq<int>, positions: Seq<int>)
    requires
        positions.no_duplicates(),
        forall|k: int| 0 <= k < positions.len() ==> 0 <= #[trigger] positions[k] < values.len(),
        forall|i: int| 0 <= i < values.len() ==> #[trigger] values[i] >= 0,
    ensures
        0 <= partial_total(values, positions) <= total(values),
    decreases positions.len(),
{
    let cleared = Seq::new(
        values.len(),
        |i: int|
            if positions.contains(i) {
                0
            } else {
                values[i]
            },
    );
    lemma_total_replaced(values, cleared, positions);
    lemma_total_positive(cleared);
    lemma_partial_zero(cleared, positions);
    if positions.len() > 0 {
        let rest = positions.drop_last();
        assert forall|k: int| 0 <= k < rest.len() implies 0 <= #[trigger] rest[k]
            < values.len() by {
            assert(rest[k] == positions[k]);
        }
        lemma_partial_bounded(values, rest);
        assert(0 <= positions[positions.len() - 1] < values.len());
        assert(values[positions.last()] >= 0);
    }
}

/// Zeros sum up to zero.
proof fn lemma_partial_zero(values: Seq<int>, positions: Seq<int>)
    requires
        forall|k: int| 0 <= k < positions.len() ==> 0 <= #[trigger] positions[k] < values.len(),
        forall|k: int| 0 <= k < positions.len() ==> values[#[trigger] positions[k]] == 0,
    ensures
        partial_total(values, positions) == 0,
    decreases positions.len(),
{
    if positions.len() > 0 {
        let rest = positions.drop_last();
        assert forall|k: int| 0 <= k < rest.len() implies 0 <= #[trigger] rest[k] < values.len()
            && values[rest[k]] == 0 by {
            assert(rest[k] == positions[k]);
        }
        lemma_partial_zero(values, rest);
        assert(values[positions[positions.len() - 1]] == 0);
    }
}

/// Half-perimeters of all nets.
pub open spec fn spans(graph: UnifiedGraph<'_>, placed: Seq<Option<BelId>>) -> Seq<int> {
    Seq::new(graph.design.nets@.len(), |n: int| net_span(graph, placed, n))
}

/// Sum of the half-perimeters of all nets.
pub open spec fn bbox_total(graph: UnifiedGraph<'_>, placed: Seq<Option<BelId>>) -> int {
    total(spans(graph, placed))
}

/// Costs of the arcs that have one.
pub open spec fn arc_values(costs: Seq<Option<u128>>) -> Seq<int> {
    Seq::new(
        costs.len(),
        |i: int|
            match costs[i] {
                Some(cost) => cost as int,
                None => 0,
            },
    )
}

/// Sum of the costs of the arcs that have one.
pub open spec fn timing_total(costs: Seq<Option<u128>>) -> int {
    total(arc_values(costs))
}

/// Combined objective of the two totals, where it fits.
pub open spec fn objective(bbox: int, timing: int, normalizer: (u128, u128)) -> Option<u128> {
    let value = bbox * normalizer.1 + timing * normalizer.0;
    if bbox * normalizer.1 > u128::MAX || timing * normalizer.0 > u128::MAX || value > u128::MAX {
        None
    } else {
        Some(value as u128)
    }
}

/// Combined objective of the two totals: each is weighed by the other's
/// starting value, so that neither tile units nor picoseconds need a
/// coefficient.
pub fn detailed_placement_objective(totals: (u128, u128), normalizer: (u128, u128)) -> (result:
    Option<u128>)
    ensures
        result == objective(totals.0 as int, totals.1 as int, normalizer),
{
    match totals.0.checked_mul(normalizer.1) {
        Some(bbox) => match totals.1.checked_mul(normalizer.0) {
            Some(timing) => bbox.checked_add(timing),
            None => None,
        },
        None => None,
    }
}

/// One total with a part replaced.
pub open spec fn replaced_total(total: u128, old_part: u128, new_part: u128) -> Option<u128> {
    if old_part > total || total - old_part + new_part > u128::MAX {
        None
    } else {
        Some((total - old_part + new_part) as u128)
    }
}

/// Both totals with a part replaced; nothing where one does not fit.
pub fn detailed_totals_after_replacement(
    totals: (u128, u128),
    old_parts: (u128, u128),
    new_parts: (u128, u128),
) -> (result: Option<(u128, u128)>)
    ensures
        match (
            replaced_total(totals.0, old_parts.0, new_parts.0),
            replaced_total(totals.1, old_parts.1, new_parts.1),
        ) {
            (Some(bbox), Some(timing)) => result == Some((bbox, timing)),
            _ => result is None,
        },
{
    if old_parts.0 > totals.0 || old_parts.1 > totals.1 {
        return None;
    }
    let bbox_left: u128 = totals.0 - old_parts.0;
    let timing_left: u128 = totals.1 - old_parts.1;
    match (bbox_left.checked_add(new_parts.0), timing_left.checked_add(new_parts.1)) {
        (Some(bbox), Some(timing)) => Some((bbox, timing)),
        _ => None,
    }
}

/// Half-perimeters add up to what a u128 can hold.
pub proof fn lemma_bbox_fits(graph: UnifiedGraph<'_>, placed: Seq<Option<BelId>>)
    ensures
        0 <= bbox_total(graph, placed) <= graph.design.nets@.len() * 0x2_0000_0000,
        bbox_total(graph, placed) <= u128::MAX,
        forall|n: int|
            0 <= n < graph.design.nets@.len() ==> 0 <= #[trigger] spans(graph, placed)[n]
                <= 0x2_0000_0000,
{
    let all = spans(graph, placed);
    assert forall|n: int| 0 <= n < graph.design.nets@.len() implies 0 <= #[trigger] spans(
        graph,
        placed,
    )[n] <= 0x2_0000_0000 by {
        lemma_span_bounded(graph, placed, n);
    }
    lemma_total_bounded(all, 0x2_0000_0000);
    assert(graph.design.nets.len() == graph.design.nets@.len());
    assert(graph.design.nets@.len() * 0x2_0000_0000 <= u128::MAX) by (nonlinear_arith)
        requires
            graph.design.nets@.len() <= usize::MAX,
    ;
}

/// Bounded numbers have a bounded sum.
proof fn lemma_total_bounded(values: Seq<int>, bound: int)
    requires
        bound >= 0,
        forall|i: int| 0 <= i < values.len() ==> 0 <= #[trigger] values[i] <= bound,
    ensures
        0 <= total(values) <= values.len() * bound,
    decreases values.len(),
{
    if values.len() > 0 {
        let rest = values.drop_last();
        assert forall|i: int| 0 <= i < rest.len() implies 0 <= #[trigger] rest[i] <= bound by {
            assert(rest[i] == values[i]);
        }
        lemma_total_bounded(rest, bound);
        assert(0 <= values[values.len() - 1] <= bound);
        assert(values.len() * bound == rest.len() * bound + bound) by (nonlinear_arith)
            requires
                values.len() == rest.len() + 1,
        ;
    }
}

/// The half-perimeter of a net is bounded.
proof fn lemma_span_bounded(graph: UnifiedGraph<'_>, placed: Seq<Option<BelId>>, net: int)
    ensures
        0 <= net_span(graph, placed, net) <= 0x2_0000_0000,
{
    let cells = endpoints(graph.design, net);
    lemma_extent_bounded(
        crate::net_span::coordinates(
            cells,
            graph.device,
            placed,
            crate::net_span::Axis::Column,
        ),
    );
    lemma_extent_bounded(
        crate::net_span::coordinates(cells, graph.device, placed, crate::net_span::Axis::Row),
    );
}

/// The extent of a set of coordinates is bounded.
proof fn lemma_extent_bounded(set: Set<u32>)
    ensures
        0 <= crate::bbox::extent_of(set) <= u32::MAX,
{
    if set != Set::<u32>::empty() {
        assert(exists|c: u32| set.contains(c)) by {
            if forall|c: u32| !set.contains(c) {
                assert(set =~= Set::<u32>::empty());
            }
        }
        let some = choose|c: u32| set.contains(c);
        lemma_has_lowest(set, some);
        lemma_has_highest(set, some);
        let low = crate::bbox::lowest(set);
        let high = crate::bbox::highest(set);
        assert(set.contains(low));
        assert(set.contains(high));
        assert(low <= high);
    }
}

/// A set of coordinates that is not empty has a least one.
pub(crate) proof fn lemma_has_lowest(set: Set<u32>, some: u32)
    requires
        set.contains(some),
    ensures
        exists|c: u32| set.contains(c) && forall|d: u32| #[trigger] set.contains(d) ==> c <= d,
    decreases some,
{
    if exists|d: u32| set.contains(d) && d < some {
        let d = choose|d: u32| set.contains(d) && d < some;
        lemma_has_lowest(set, d);
    } else {
        assert forall|d: u32| #[trigger] set.contains(d) implies some <= d by {}
    }
}

/// A set of coordinates that is not empty has a greatest one.
pub(crate) proof fn lemma_has_highest(set: Set<u32>, some: u32)
    requires
        set.contains(some),
    ensures
        exists|c: u32| set.contains(c) && forall|d: u32| #[trigger] set.contains(d) ==> d <= c,
    decreases u32::MAX - some,
{
    if exists|d: u32| set.contains(d) && d > some {
        let d = choose|d: u32| set.contains(d) && d > some;
        lemma_has_highest(set, d);
    } else {
        assert forall|d: u32| #[trigger] set.contains(d) implies d <= some by {}
    }
}

} // verus!
