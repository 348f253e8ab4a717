//! What single steps cost, and where pulls and offsets lead.

use vstd::prelude::*;

use crate::device::{Device, UnifiedGraph};
use crate::displacement::displaced;
use crate::hold::{HoldProblem, HoldQueueEntry};
use crate::model::{BelId, CellId, PipId, Point, ResourceKind, WireId};
use crate::neighbors::PlacementNeighbor;
use crate::refine::{list_moment, pull_center, unit_moment, Moment};
use crate::row_cost::bel_point;
use crate::search::{remaining_estimate, RouteSearch, SearchSpace};
use crate::search_course::RouteLabel;
use crate::timing_laws::begun_quanta;
use crate::units::PlacementUnit;

verus! {

/// A hop of a hold search costs the quanta of 50 ps that the minimum delay of its PIP
/// begins, or one on an untimed connection and at least, and the prices of its wire and
/// its PIP; it arrives by the minimum delay later.
pub proof fn a_hold_hop_goes_by_minimum_delays(
    problem: HoldProblem<'_>,
    popped: HoldQueueEntry,
    pip: PipId,
    wire: WireId,
)
    requires
        popped.arrival_ps + problem.costs.pip_min_delays_ps@[pip.0 as int] <= u64::MAX,
        popped.distance + u32::MAX + u32::MAX + u32::MAX <= u64::MAX,
    ensures
        ({
            let delay_ps = problem.costs.pip_min_delays_ps@[pip.0 as int] as int;
            let query = problem.space.query;
            let quanta = begun_quanta(delay_ps, 50);
            let next = problem.next_visit(popped, pip, wire);
            &&& next.arrival_ps == popped.arrival_ps + delay_ps
            &&& next.distance == popped.distance + (if query.criticality == 0 || quanta < 1 {
                1
            } else {
                quanta
            }) + query.wire_congestion@[wire.0 as int] + query.pip_congestion@[pip.0 as int]
        }),
{
    let query = problem.space.query;
    let congestion = query.wire_congestion@[wire.0 as int] + query.pip_congestion@[pip.0 as int];
    crate::cost::lemma_ceil_div(problem.costs.pip_min_delays_ps@[pip.0 as int] as int, 50);
    assert(crate::cost::ceil_div(50, 50) == 1);
    assert(congestion * 1 == congestion);
}

/// A hop of a detailed connection costs the quanta that its maximum delay adds to those
/// of the whole arrival, the share of a default quantum by which the connection is less
/// than fully critical, and the prices of its wire and its PIP for every detailed quantum
/// of a default one.
pub proof fn a_detailed_hop_rounds_the_whole_arrival(
    search: RouteSearch,
    space: SearchSpace<'_>,
    from: WireId,
    label: RouteLabel,
    pip: PipId,
    to: WireId,
)
    requires
        space.query.wf(),
        space.query.delay_quantum_ps != 50,
        space.query.criticality != 0,
        space.query.costs is Some,
        ({
            let delay_ps = space.query.costs->0.pip_delays_ps@[pip.0 as int] as int;
            let quantum = space.query.delay_quantum_ps as int;
            let prices = space.query.wire_congestion@[to.0 as int]
                + space.query.pip_congestion@[pip.0 as int];
            label.distance + begun_quanta(label.arrival_ps + delay_ps, quantum) + begun_quanta(
                (64 - space.query.criticality) * 50,
                64 * quantum,
            ) + prices * begun_quanta(50, quantum) <= u32::MAX
        }),
    ensures
        ({
            let delay_ps = space.query.costs->0.pip_delays_ps@[pip.0 as int] as int;
            let quantum = space.query.delay_quantum_ps as int;
            let prices = space.query.wire_congestion@[to.0 as int]
                + space.query.pip_congestion@[pip.0 as int];
            search.next_label(space, from, label, pip, to).distance == label.distance
                + begun_quanta(label.arrival_ps + delay_ps, quantum) - begun_quanta(
                label.arrival_ps as int,
                quantum,
            ) + begun_quanta((64 - space.query.criticality) * 50, 64 * quantum) + prices
                * begun_quanta(50, quantum)
        }),
{
    let query = space.query;
    let quantum = query.delay_quantum_ps as int;
    let delay_ps = query.costs->0.pip_delays_ps@[pip.0 as int] as int;
    let prices = query.wire_congestion@[to.0 as int] + query.pip_congestion@[pip.0 as int];
    let earlier = label.arrival_ps as int;
    crate::cost::lemma_ceil_div(earlier, quantum);
    crate::cost::lemma_ceil_div(earlier + delay_ps, quantum);
    crate::cost::lemma_ceil_div_monotone(earlier, earlier + delay_ps, quantum);
    crate::cost::lemma_ceil_div((64 - query.criticality) * 50, 64 * quantum);
    crate::cost::lemma_ceil_div(50, quantum);
    assert(prices * begun_quanta(50, quantum) >= 0) by (nonlinear_arith)
        requires
            prices >= 0,
            begun_quanta(50, quantum) >= 0,
    ;
}

/// The rest of an untimed route is guessed at one for every tile to go, and that of a
/// fully critical one at the quanta that the base delay and the delay of those tiles
/// begin.
pub proof fn an_estimate_grows_with_the_tiles_to_go(
    base_delay_ps: int,
    delay_per_tile_ps: int,
    distance: int,
    quantum_ps: int,
)
    requires
        0 <= base_delay_ps,
        0 <= delay_per_tile_ps,
        0 <= distance,
        0 < quantum_ps,
        base_delay_ps + distance * delay_per_tile_ps <= u64::MAX,
        distance * delay_per_tile_ps >= 0,
    ensures
        remaining_estimate(base_delay_ps, delay_per_tile_ps, distance, 0, quantum_ps) == distance,
        remaining_estimate(base_delay_ps, delay_per_tile_ps, distance, 64, quantum_ps)
            == begun_quanta(base_delay_ps + distance * delay_per_tile_ps, quantum_ps),
{
    crate::cost::lemma_ceil_div(base_delay_ps + distance * delay_per_tile_ps, quantum_ps);
    assert(distance * 0 == 0);
    crate::cost::lemma_ceil_div(0, 64);
}

/// Sum over the edges of one cell to placed cells outside the unit.
pub open spec fn outer_sum(
    list: Seq<PlacementNeighbor>,
    cells: Seq<CellId>,
    device: &Device,
    placed: Seq<Option<BelId>>,
    value: spec_fn(u64, Point) -> int,
) -> int
    decreases list.len(),
{
    if list.len() == 0 {
        0
    } else {
        let edge = list.last();
        outer_sum(list.drop_last(), cells, device, placed, value) + match placed[edge.cell.0 as int] {
            Some(bel) => if cells.contains(edge.cell) {
                0
            } else {
                value(edge.weight, device.bels@[bel.0 as int].point)
            },
            None => 0,
        }
    }
}

/// Sum over the edges of the first cells to placed cells outside the unit.
pub open spec fn outer_total(
    count: int,
    cells: Seq<CellId>,
    device: &Device,
    neighbors: Seq<Vec<PlacementNeighbor>>,
    placed: Seq<Option<BelId>>,
    value: spec_fn(u64, Point) -> int,
) -> int
    decreases count,
{
    if count <= 0 {
        0
    } else {
        outer_total(count - 1, cells, device, neighbors, placed, value) + outer_sum(
            neighbors[cells[count - 1].0 as int]@,
            cells,
            device,
            placed,
            value,
        )
    }
}

/// Moments are sums, where no product is out of range.
proof fn lemma_list_moments(
    list: Seq<PlacementNeighbor>,
    cells: Seq<CellId>,
    device: &Device,
    placed: Seq<Option<BelId>>,
)
    requires
        forall|k: int| 0 <= k < list.len() ==> (#[trigger] list[k]).weight <= u32::MAX,
    ensures
        list_moment(list, cells, device, placed, Moment::Weight) == outer_sum(
            list,
            cells,
            device,
            placed,
            |weight: u64, point: Point| weight as int,
        ),
        list_moment(list, cells, device, placed, Moment::Column) == outer_sum(
            list,
            cells,
            device,
            placed,
            |weight: u64, point: Point| weight * point.x,
        ),
        list_moment(list, cells, device, placed, Moment::Row) == outer_sum(
            list,
            cells,
            device,
            placed,
            |weight: u64, point: Point| weight * point.y,
        ),
    decreases list.len(),
{
    if list.len() > 0 {
        let rest = list.drop_last();
        assert forall|k: int| 0 <= k < rest.len() implies (#[trigger] rest[k]).weight
            <= u32::MAX by {
            assert(rest[k] == list[k]);
        }
        lemma_list_moments(rest, cells, device, placed);
        let edge = list.last();
        assert(list[list.len() - 1] == edge);
        if let Some(bel) = placed[edge.cell.0 as int] {
            let point = bel_point(device, bel);
            assert(point.x * edge.weight == edge.weight * point.x) by (nonlinear_arith);
            assert(point.y * edge.weight == edge.weight * point.y) by (nonlinear_arith);
            assert(edge.weight * point.x <= u32::MAX * u32::MAX) by (nonlinear_arith)
                requires
                    edge.weight <= u32::MAX,
                    point.x <= u32::MAX,
            ;
            assert(edge.weight * point.y <= u32::MAX * u32::MAX) by (nonlinear_arith)
                requires
                    edge.weight <= u32::MAX,
                    point.y <= u32::MAX,
            ;
        }
    }
}

/// Moments of a unit are sums.
proof fn lemma_unit_moments(
    count: int,
    cells: Seq<CellId>,
    device: &Device,
    neighbors: Seq<Vec<PlacementNeighbor>>,
    placed: Seq<Option<BelId>>,
)
    requires
        0 <= count <= cells.len(),
        forall|k: int| 0 <= k < cells.len() ==> (#[trigger] cells[k]).0 < neighbors.len(),
        forall|c: int, k: int|
            #![trigger neighbors[c]@[k]]
            0 <= c < neighbors.len() && 0 <= k < neighbors[c]@.len() ==> neighbors[c]@[k].weight
                <= u32::MAX,
    ensures
        unit_moment(count, cells, device, neighbors, placed, Moment::Weight) == outer_total(
            count,
            cells,
            device,
            neighbors,
            placed,
            |weight: u64, point: Point| weight as int,
        ),
        unit_moment(count, cells, device, neighbors, placed, Moment::Column) == outer_total(
            count,
            cells,
            device,
            neighbors,
            placed,
            |weight: u64, point: Point| weight * point.x,
        ),
        unit_moment(count, cells, device, neighbors, placed, Moment::Row) == outer_total(
            count,
            cells,
            device,
            neighbors,
            placed,
            |weight: u64, point: Point| weight * point.y,
        ),
    decreases count,
{
    if count > 0 {
        lemma_unit_moments(count - 1, cells, device, neighbors, placed);
        let list = neighbors[cells[count - 1].0 as int]@;
        assert forall|k: int| 0 <= k < list.len() implies (#[trigger] list[k]).weight
            <= u32::MAX by {
            assert(neighbors[cells[count - 1].0 as int]@[k] == list[k]);
        }
        lemma_list_moments(list, cells, device, placed);
    }
}

/// The tile around which a unit is offered rows is the mean of the tiles of its placed
/// neighbors outside of it, each weighed by the weight of its edge and rounded down.
pub proof fn the_center_is_the_weighted_mean(
    cells: Seq<CellId>,
    device: &Device,
    neighbors: Seq<Vec<PlacementNeighbor>>,
    placed: Seq<Option<BelId>>,
    center: Point,
)
    requires
        forall|k: int| 0 <= k < cells.len() ==> (#[trigger] cells[k]).0 < neighbors.len(),
        forall|c: int, k: int|
            #![trigger neighbors[c]@[k]]
            0 <= c < neighbors.len() && 0 <= k < neighbors[c]@.len() ==> neighbors[c]@[k].weight
                <= u32::MAX,
        pull_center(cells, device, neighbors, placed) == Some(center),
        ({
            let count = cells.len() as int;
            let weight = outer_total(
                count,
                cells,
                device,
                neighbors,
                placed,
                |weight: u64, point: Point| weight as int,
            );
            let columns = outer_total(
                count,
                cells,
                device,
                neighbors,
                placed,
                |weight: u64, point: Point| weight * point.x,
            );
            let rows = outer_total(
                count,
                cells,
                device,
                neighbors,
                placed,
                |weight: u64, point: Point| weight * point.y,
            );
            &&& 0 < weight <= u64::MAX
            &&& 0 <= columns <= u64::MAX
            &&& 0 <= rows <= u64::MAX
            &&& columns <= weight * u32::MAX
            &&& rows <= weight * u32::MAX
        }),
    ensures
        ({
            let count = cells.len() as int;
            let weight = outer_total(
                count,
                cells,
                device,
                neighbors,
                placed,
                |weight: u64, point: Point| weight as int,
            );
            let columns = outer_total(
                count,
                cells,
                device,
                neighbors,
                placed,
                |weight: u64, point: Point| weight * point.x,
            );
            let rows = outer_total(
                count,
                cells,
                device,
                neighbors,
                placed,
                |weight: u64, point: Point| weight * point.y,
            );
            &&& center.x * weight <= columns < center.x * weight + weight
            &&& center.y * weight <= rows < center.y * weight + weight
        }),
{
    let count = cells.len() as int;
    lemma_unit_moments(count, cells, device, neighbors, placed);
    let weight = unit_moment(count, cells, device, neighbors, placed, Moment::Weight);
    let columns = unit_moment(count, cells, device, neighbors, placed, Moment::Column);
    let rows = unit_moment(count, cells, device, neighbors, placed, Moment::Row);
    lemma_quotient(columns, weight);
    lemma_quotient(rows, weight);
}

/// A quotient times its divisor, and one divisor more.
proof fn lemma_quotient(value: int, divisor: int)
    requires
        0 <= value <= divisor * u32::MAX,
        0 < divisor,
    ensures
        0 <= value / divisor <= u32::MAX,
        (value / divisor) * divisor <= value < (value / divisor) * divisor + divisor,
{
    let q = value / divisor;
    vstd::arithmetic::div_mod::lemma_fundamental_div_mod(value, divisor);
    assert(q * divisor == divisor * q) by (nonlinear_arith);
    assert(0 <= q) by (nonlinear_arith)
        requires
            value == divisor * q + value % divisor,
            0 <= value,
            0 <= value % divisor < divisor,
            0 < divisor,
    ;
    assert(q <= u32::MAX) by (nonlinear_arith)
        requires
            value == divisor * q + value % divisor,
            0 <= value % divisor,
            value <= divisor * u32::MAX,
            0 < divisor,
    ;
}

/// A displaced cell of a unit is aimed at the target of the unit by the offset that it
/// has on the first row, and is reported where its kind is the one that is asked for.
pub proof fn a_displacement_keeps_the_offsets(
    graph: UnifiedGraph<'_>,
    unit: PlacementUnit,
    target: Point,
    placed: Seq<Option<BelId>>,
    kind: Option<ResourceKind>,
    member: int,
    bel: BelId,
)
    requires
        placed[unit.cells@[member].0 as int] == Some(bel),
        ({
            let row = unit.choices.row(0);
            let origin = graph.device.bels@[row[0].0 as int].point;
            let here = graph.device.bels@[row[member].0 as int].point;
            &&& 0 <= target.x + here.x - origin.x <= u32::MAX
            &&& 0 <= target.y + here.y - origin.y <= u32::MAX
        }),
    ensures
        ({
            let row = unit.choices.row(0);
            let origin = graph.device.bels@[row[0].0 as int].point;
            let here = graph.device.bels@[row[member].0 as int].point;
            let asked = kind matches Some(kind) ==> graph.design.cells@[unit.cells@[member].0 as int].kind
                == kind;
            &&& asked ==> (displaced(graph, unit, target, placed, kind, member) matches Some(found)
                && found.target.x - target.x == here.x - origin.x && found.target.y - target.y
                == here.y - origin.y && found.legalized == graph.device.bels@[bel.0 as int].point)
            &&& !asked ==> displaced(graph, unit, target, placed, kind, member) is None
        }),
{
}

} // verus!
