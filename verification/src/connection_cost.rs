//! Costs of the connections of one unit on one of its rows.


use vstd::prelude::*;

use crate::candidates::{bindings_in_range, candidate_pin_wire, choice_wire};
use crate::cost::clip_u64;
use crate::device::{Device, UnifiedGraph};
use crate::local_delay::{
    ends_within, is_least_price, least_price, HopPrices, MAX_LOCAL_HOPS,
};
use crate::model::{BelId, CellId, CellPinId, PipId, WireId};
use crate::ordered::{OrderedKey, OrderedMap};
use crate::placement_constraints::PlacementConstraints;
use crate::search::{
    corridor_between, inside_corridor, point_inside_corridor, routing_corridor, RoutingCorridor,
};
use crate::units::PlacementUnit;

verus! {

/// Margin around the corridor of a local walk.
pub const LOCAL_MARGIN: u32 = 1;

/// Delays of hops inside a corridor.
pub struct DelayPrices<'a> {
    /// Device.
    pub device: &'a Device,
    /// Delay of each PIP.
    pub delays: &'a [u32],
    /// Corridor of the walk.
    pub corridor: RoutingCorridor,
}

impl<'a> HopPrices for DelayPrices<'a> {
    open spec fn hop(&self, pip: PipId, to: WireId) -> Option<int> {
        if inside_corridor(self.device.wires@[to.0 as int].point, self.corridor) {
            Some(self.delays@[pip.0 as int] as int)
        } else {
            None
        }
    }

    open spec fn prices(&self, device: &Device) -> bool {
        *self.device == *device && self.delays@.len() == device.pips@.len()
    }

    proof fn hop_range(&self, pip: PipId, to: WireId) {
    }

    fn find_hop(&self, pip: PipId, to: WireId, device: &Device) -> (result: Option<u64>) {
        if point_inside_corridor(self.device.wires[to.0].point, self.corridor) {
            Some(self.delays[pip.0] as u64)
        } else {
            None
        }
    }
}

/// Delays of hops between two wires.
pub open spec fn delays_between<'a>(
    device: &'a Device,
    delays: &'a [u32],
    start: WireId,
    goal: WireId,
) -> DelayPrices<'a> {
    DelayPrices {
        device,
        delays,
        corridor: corridor_between(
            device.wires@[start.0 as int].point,
            device.wires@[goal.0 as int].point,
            device,
            LOCAL_MARGIN as int,
        ),
    }
}

/// The least price of a short walk, if there is one.
pub open spec fn is_least_of<P: HopPrices>(
    device: &Device,
    prices: &P,
    sources: Set<WireId>,
    goal: WireId,
    result: Option<u64>,
) -> bool {
    match result {
        Some(price) => is_least_price(
            device,
            prices,
            sources,
            MAX_LOCAL_HOPS as int,
            goal,
            price as int,
        ),
        None => forall|wires: Seq<WireId>, pips: Seq<PipId>| !#[trigger]
            ends_within(device, prices, sources, MAX_LOCAL_HOPS as int, goal, wires, pips),
    }
}

/// There is one least price.
pub proof fn least_price_is_unique<P: HopPrices>(
    device: &Device,
    prices: &P,
    sources: Set<WireId>,
    goal: WireId,
    a: Option<u64>,
    b: Option<u64>,
)
    requires
        is_least_of(device, prices, sources, goal, a),
        is_least_of(device, prices, sources, goal, b),
    ensures
        a == b,
{
    let hops = MAX_LOCAL_HOPS as int;
    if let Some(x) = a {
        let (wires, pips) = choose|wires: Seq<WireId>, pips: Seq<PipId>|
            #[trigger] ends_within(device, prices, sources, hops, goal, wires, pips) && clip_u64(
                crate::local_delay::walk_price(prices, wires, pips),
            ) == x as int;
        assert(ends_within(device, prices, sources, hops, goal, wires, pips));
    }
    if let Some(y) = b {
        let (wires, pips) = choose|wires: Seq<WireId>, pips: Seq<PipId>|
            #[trigger] ends_within(device, prices, sources, hops, goal, wires, pips) && clip_u64(
                crate::local_delay::walk_price(prices, wires, pips),
            ) == y as int;
        assert(ends_within(device, prices, sources, hops, goal, wires, pips));
    }
}

/// Delay of a fastest short walk near both wires.
pub open spec fn local_delay(
    device: &Device,
    delays: &[u32],
    start: WireId,
    goal: WireId,
) -> Option<u64> {
    choose|result: Option<u64>| #[trigger]
        is_least_of(
            device,
            &delays_between(device, delays, start, goal),
            set![start],
            goal,
            result,
        )
}

/// Delay of a fastest short walk near both wires.
pub(crate) fn local_connection_delay(
    graph: &UnifiedGraph<'_>,
    start: WireId,
    goal: WireId,
    pip_delays_ps: &[u32],
) -> (result: Option<u64>)
    requires
        graph.wf(),
        start.0 < graph.device.wires@.len(),
        goal.0 < graph.device.wires@.len(),
        pip_delays_ps@.len() == graph.device.pips@.len(),
    ensures
        is_least_of(
            graph.device,
            &delays_between(graph.device, pip_delays_ps, start, goal),
            set![start],
            goal,
            result,
        ),
        result == local_delay(graph.device, pip_delays_ps, start, goal),
{
    let device = graph.device();
    let corridor = routing_corridor(
        device.wires[start.0].point,
        device.wires[goal.0].point,
        device,
        LOCAL_MARGIN,
    );
    let prices = DelayPrices { device, delays: pip_delays_ps, corridor };
    let mut sources: Vec<WireId> = Vec::new();
    sources.push(start);
    proof {
        assert(sources@.to_set() =~= set![start]) by {
            assert(sources@ =~= seq![start]);
            assert forall|w: WireId| sources@.to_set().contains(w) <==> set![start].contains(w) by {
                if sources@.contains(w) {
                    let k = sources@.index_of(w);
                }
                assert(sources@[0] == start);
            }
        }
        assert(prices == delays_between(device, pip_delays_ps, start, goal));
    }
    let result = least_price(graph, &prices, &sources, goal);
    proof {
        assert(is_least_of(
            device,
            &delays_between(device, pip_delays_ps, start, goal),
            set![start],
            goal,
            result,
        ));
        least_price_is_unique(
            device,
            &delays_between(device, pip_delays_ps, start, goal),
            set![start],
            goal,
            result,
            local_delay(device, pip_delays_ps, start, goal),
        );
    }
    result
}

/// Two endpoint wires.
#[derive(Clone, Copy, Debug, PartialEq, Eq, Structural)]
pub struct WirePair {
    /// First wire of the walk.
    pub start: WireId,
    /// Last wire of the walk.
    pub goal: WireId,
}

impl OrderedKey for WirePair {
    open spec fn rank(self) -> int {
        self.start.0 * 0x1_0000_0000_0000_0000 + self.goal.0
    }

    proof fn rank_is_injective(a: Self, b: Self) {
    }

    fn precedes(self, other: Self) -> (result: bool) {
        self.start.0 < other.start.0 || (self.start.0 == other.start.0 && self.goal.0
            < other.goal.0)
    }
}

/// Scratch storage for exact local connection-delay scoring.
///
/// A timing-refinement pass can reuse completed endpoint queries. Create a
/// fresh workspace when the device or PIP delay table changes.
#[derive(Clone, Debug)]
pub struct PlacementConnectionDelayWorkspace {
    /// Delays of the walks that were asked for.
    pub delays: OrderedMap<WirePair, Option<u64>>,
}

impl PlacementConnectionDelayWorkspace {
    /// Every stored delay is right for the device and the delay table.
    pub open spec fn holds(&self, device: &Device, delays: &[u32]) -> bool {
        &&& self.delays.wf()
        &&& forall|k: WirePair| #[trigger]
            self.delays@.contains_key(k) ==> self.delays@[k] == local_delay(
                device,
                delays,
                k.start,
                k.goal,
            )
    }

    /// Creates empty pass-local delay-search storage.
    pub fn new() -> (result: Self)
        ensures
            forall|device: &Device, delays: &[u32]| #[trigger] result.holds(device, delays),
    {
        PlacementConnectionDelayWorkspace { delays: OrderedMap::new() }
    }

    /// Delay of a fastest short walk, stored for the next time.
    fn delay(
        &mut self,
        graph: &UnifiedGraph<'_>,
        start: WireId,
        goal: WireId,
        pip_delays_ps: &[u32],
    ) -> (result: Option<u64>)
        requires
            graph.wf(),
            start.0 < graph.device.wires@.len(),
            goal.0 < graph.device.wires@.len(),
            pip_delays_ps@.len() == graph.device.pips@.len(),
            old(self).holds(graph.device, pip_delays_ps),
        ensures
            final(self).holds(graph.device, pip_delays_ps),
            result == local_delay(graph.device, pip_delays_ps, start, goal),
    {
        let key = WirePair { start, goal };
        if let Some(known) = self.delays.get(key) {
            return *known;
        }
        let delay = local_connection_delay(graph, start, goal, pip_delays_ps);
        self.delays.insert(key, delay);
        delay
    }
}

/// Position of a cell in a list.
pub open spec fn column_of(cells: Seq<CellId>, cell: CellId) -> Option<int>
    decreases cells.len(),
{
    if cells.len() == 0 {
        None
    } else if cells[0] == cell {
        Some(0)
    } else {
        match column_of(cells.drop_first(), cell) {
            Some(column) => Some(column + 1),
            None => None,
        }
    }
}

/// BEL of a cell: that of the row for cells of the unit.
pub open spec fn bel_on_row(
    cells: Seq<CellId>,
    row: Seq<BelId>,
    cell: CellId,
    placed: Seq<Option<BelId>>,
) -> Option<BelId> {
    match column_of(cells, cell) {
        Some(column) => if column < row.len() {
            Some(row[column])
        } else {
            None
        },
        None => if cell.0 < placed.len() {
            placed[cell.0 as int]
        } else {
            None
        },
    }
}

/// Position of a cell in a list.
pub(crate) fn find_column(cells: &Vec<CellId>, cell: CellId) -> (result: Option<usize>)
    ensures
        match result {
            Some(column) => column_of(cells@, cell) == Some(column as int) && column < cells@.len()
                && cells@[column as int] == cell,
            None => column_of(cells@, cell) is None && !cells@.contains(cell),
        },
{
    let mut at: usize = 0;
    assert(cells@.skip(0) =~= cells@);
    while at < cells.len()
        invariant
            at <= cells@.len(),
            column_of(cells@, cell) == (match column_of(cells@.skip(at as int), cell) {
                Some(column) => Some(column + at),
                None => None,
            }),
            forall|k: int| 0 <= k < at ==> #[trigger] cells@[k] != cell,
        decreases cells@.len() - at,
    {
        proof {
            assert(cells@.skip(at as int)[0] == cells@[at as int]);
            assert(cells@.skip(at as int).drop_first() =~= cells@.skip(at + 1));
        }
        if cells[at] == cell {
            return Some(at);
        }
        at = at + 1;
    }
    assert(cells@.skip(at as int).len() == 0);
    None
}

/// BEL of a cell: that of the row for cells of the unit.
pub(crate) fn assignment_bel(
    unit: &PlacementUnit,
    assignment: &Vec<BelId>,
    cell: CellId,
    placed: &Vec<Option<BelId>>,
) -> (result: Option<BelId>)
    ensures
        result == bel_on_row(unit.cells@, assignment@, cell, placed@),
{
    match find_column(&unit.cells, cell) {
        Some(column) => if column < assignment.len() {
            Some(assignment[column])
        } else {
            None
        },
        None => if cell.0 < placed.len() {
            placed[cell.0]
        } else {
            None
        },
    }
}

/// Distance of the two ends of a connection that touches the moving cell.
pub open spec fn link_span(
    graph: UnifiedGraph<'_>,
    cells: Seq<CellId>,
    row: Seq<BelId>,
    moving: CellId,
    link: (CellPinId, CellPinId),
    placed: Seq<Option<BelId>>,
) -> Option<int> {
    let pins = graph.design.pins@;
    if link.0.0 >= pins.len() || link.1.0 >= pins.len() {
        None
    } else {
        let driver = pins[link.0.0 as int].cell;
        let sink = pins[link.1.0 as int].cell;
        if driver != moving && sink != moving {
            None
        } else {
            match (bel_on_row(cells, row, driver, placed), bel_on_row(cells, row, sink, placed)) {
                (Some(a), Some(b)) => if a.0 < graph.device.bels@.len() && b.0
                    < graph.device.bels@.len() {
                    Some(
                        graph.device.bels@[a.0 as int].point.distance(
                            graph.device.bels@[b.0 as int].point,
                        ),
                    )
                } else {
                    None
                },
                _ => None,
            }
        }
    }
}

/// Sum of the spans of some connections.
pub open spec fn total_span(
    graph: UnifiedGraph<'_>,
    cells: Seq<CellId>,
    row: Seq<BelId>,
    moving: CellId,
    links: Seq<(CellPinId, CellPinId)>,
    placed: Seq<Option<BelId>>,
) -> Option<int>
    decreases links.len(),
{
    if links.len() == 0 {
        Some(0)
    } else {
        match (
            total_span(graph, cells, row, moving, links.drop_last(), placed),
            link_span(graph, cells, row, moving, links.last(), placed),
        ) {
            (Some(a), Some(b)) => Some(clip_u64(a + b)),
            _ => None,
        }
    }
}

/// A sum over fewer connections exists where it exists over more.
proof fn lemma_span_prefix(
    graph: UnifiedGraph<'_>,
    cells: Seq<CellId>,
    row: Seq<BelId>,
    moving: CellId,
    links: Seq<(CellPinId, CellPinId)>,
    placed: Seq<Option<BelId>>,
    count: int,
)
    requires
        0 <= count <= links.len(),
        total_span(graph, cells, row, moving, links.take(count), placed) is None,
    ensures
        total_span(graph, cells, row, moving, links, placed) is None,
    decreases links.len() - count,
{
    if count == links.len() {
        assert(links.take(count) =~= links);
    } else {
        assert(links.take(count + 1).drop_last() =~= links.take(count));
        lemma_span_prefix(graph, cells, row, moving, links, placed, count + 1);
    }
}

/// Sum of the distances of the connections' ends.
pub(crate) fn assignment_connection_span(
    graph: &UnifiedGraph<'_>,
    unit: &PlacementUnit,
    assignment: &Vec<BelId>,
    moving_cell: CellId,
    connections: &[(CellPinId, CellPinId)],
    placed: &Vec<Option<BelId>>,
) -> (result: Option<u64>)
    ensures
        match result {
            Some(span) => total_span(
                *graph,
                unit.cells@,
                assignment@,
                moving_cell,
                connections@,
                placed@,
            ) == Some(span as int),
            None => total_span(
                *graph,
                unit.cells@,
                assignment@,
                moving_cell,
                connections@,
                placed@,
            ) is None,
        },
{
    let design = graph.design();
    let device = graph.device();
    let mut span: u64 = 0;
    let mut at: usize = 0;
    while at < connections.len()
        invariant
            at <= connections@.len(),
            design == graph.design,
            device == graph.device,
            total_span(
                *graph,
                unit.cells@,
                assignment@,
                moving_cell,
                connections@.take(at as int),
                placed@,
            ) == Some(span as int),
        decreases connections@.len() - at,
    {
        let (driver_pin, sink_pin) = connections[at];
        let ghost longer = connections@.take(at + 1);
        proof {
            assert(longer.drop_last() =~= connections@.take(at as int));
            assert(longer.last() == connections@[at as int]);
            if total_span(*graph, unit.cells@, assignment@, moving_cell, longer, placed@) is None {
                lemma_span_prefix(
                    *graph,
                    unit.cells@,
                    assignment@,
                    moving_cell,
                    connections@,
                    placed@,
                    at + 1,
                );
            }
        }
        if driver_pin.0 >= design.pins.len() || sink_pin.0 >= design.pins.len() {
            return None;
        }
        let driver_cell = design.pins[driver_pin.0].cell;
        let sink_cell = design.pins[sink_pin.0].cell;
        if driver_cell != moving_cell && sink_cell != moving_cell {
            return None;
        }
        let driver_bel = match assignment_bel(unit, assignment, driver_cell, placed) {
            Some(bel) => bel,
            None => {
                return None;
            },
        };
        let sink_bel = match assignment_bel(unit, assignment, sink_cell, placed) {
            Some(bel) => bel,
            None => {
                return None;
            },
        };
        if driver_bel.0 >= device.bels.len() || sink_bel.0 >= device.bels.len() {
            return None;
        }
        let distance: u64 = device.bels[driver_bel.0].point.manhattan(
            device.bels[sink_bel.0].point,
        );
        span = span.saturating_add(distance);
        at = at + 1;
    }
    assert(connections@.take(at as int) =~= connections@);
    Some(span)
}

/// Wires of the two ends of a connection.
pub open spec fn link_wires(
    graph: UnifiedGraph<'_>,
    constraints: &PlacementConstraints,
    cells: Seq<CellId>,
    row: Seq<BelId>,
    link: (CellPinId, CellPinId),
    placed: Seq<Option<BelId>>,
) -> Option<(WireId, WireId)> {
    let pins = graph.design.pins@;
    if link.0.0 >= pins.len() || link.1.0 >= pins.len() {
        None
    } else {
        match (
            bel_on_row(cells, row, pins[link.0.0 as int].cell, placed),
            bel_on_row(cells, row, pins[link.1.0 as int].cell, placed),
        ) {
            (Some(a), Some(b)) => match (
                choice_wire(graph, constraints, link.0, a),
                choice_wire(graph, constraints, link.1, b),
            ) {
                (Some(start), Some(goal)) => Some((start, goal)),
                _ => None,
            },
            _ => None,
        }
    }
}

/// Wires of the two ends of a connection.
pub(crate) fn find_link_wires(
    graph: &UnifiedGraph<'_>,
    constraints: &PlacementConstraints,
    unit: &PlacementUnit,
    assignment: &Vec<BelId>,
    link: (CellPinId, CellPinId),
    placed: &Vec<Option<BelId>>,
) -> (result: Option<(WireId, WireId)>)
    requires
        graph.wf(),
        constraints.wf(),
        bindings_in_range(*graph, constraints),
    ensures
        result == link_wires(*graph, constraints, unit.cells@, assignment@, link, placed@),
        result matches Some(pair) ==> pair.0.0 < graph.device.wires@.len() && pair.1.0
            < graph.device.wires@.len(),
{
    let design = graph.design();
    if link.0.0 >= design.pins.len() || link.1.0 >= design.pins.len() {
        return None;
    }
    let driver_bel = match assignment_bel(unit, assignment, design.pins[link.0.0].cell, placed) {
        Some(bel) => bel,
        None => {
            return None;
        },
    };
    let sink_bel = match assignment_bel(unit, assignment, design.pins[link.1.0].cell, placed) {
        Some(bel) => bel,
        None => {
            return None;
        },
    };
    match (
        candidate_pin_wire(graph, constraints, link.0, driver_bel),
        candidate_pin_wire(graph, constraints, link.1, sink_bel),
    ) {
        (Some(start), Some(goal)) => Some((start, goal)),
        _ => None,
    }
}

/// Delay of a connection that touches the moving cell.
pub open spec fn link_delay(
    graph: UnifiedGraph<'_>,
    constraints: &PlacementConstraints,
    cells: Seq<CellId>,
    row: Seq<BelId>,
    moving: CellId,
    link: (CellPinId, CellPinId),
    placed: Seq<Option<BelId>>,
    delays: &[u32],
) -> Option<u64> {
    let pins = graph.design.pins@;
    if link.0.0 >= pins.len() || link.1.0 >= pins.len() || (pins[link.0.0 as int].cell != moving
        && pins[link.1.0 as int].cell != moving) {
        None
    } else {
        match link_wires(graph, constraints, cells, row, link, placed) {
            Some(pair) => local_delay(graph.device, delays, pair.0, pair.1),
            None => None,
        }
    }
}

/// Sum of the delays of some connections above their targets.
pub open spec fn total_excess(
    graph: UnifiedGraph<'_>,
    constraints: &PlacementConstraints,
    cells: Seq<CellId>,
    row: Seq<BelId>,
    moving: CellId,
    links: Seq<(CellPinId, CellPinId)>,
    targets: Seq<u64>,
    placed: Seq<Option<BelId>>,
    delays: &[u32],
) -> Option<int>
    decreases links.len(),
{
    if links.len() == 0 {
        Some(0)
    } else {
        match (
            total_excess(
                graph,
                constraints,
                cells,
                row,
                moving,
                links.drop_last(),
                targets,
                placed,
                delays,
            ),
            link_delay(graph, constraints, cells, row, moving, links.last(), placed, delays),
        ) {
            (Some(sum), Some(delay)) => Some(
                clip_u64(
                    sum + if delay > targets[links.len() - 1] {
                        delay - targets[links.len() - 1]
                    } else {
                        0
                    },
                ),
            ),
            _ => None,
        }
    }
}

/// A sum over fewer connections exists where it exists over more.
proof fn lemma_excess_prefix(
    graph: UnifiedGraph<'_>,
    constraints: &PlacementConstraints,
    cells: Seq<CellId>,
    row: Seq<BelId>,
    moving: CellId,
    links: Seq<(CellPinId, CellPinId)>,
    targets: Seq<u64>,
    placed: Seq<Option<BelId>>,
    delays: &[u32],
    count: int,
)
    requires
        0 <= count <= links.len(),
        total_excess(
            graph,
            constraints,
            cells,
            row,
            moving,
            links.take(count),
            targets,
            placed,
            delays,
        ) is None,
    ensures
        total_excess(
            graph,
            constraints,
            cells,
            row,
            moving,
            links,
            targets,
            placed,
            delays,
        ) is None,
    decreases links.len() - count,
{
    if count == links.len() {
        assert(links.take(count) =~= links);
    } else {
        assert(links.take(count + 1).drop_last() =~= links.take(count));
        lemma_excess_prefix(
            graph,
            constraints,
            cells,
            row,
            moving,
            links,
            targets,
            placed,
            delays,
            count + 1,
        );
    }
}

/// Sums the connections' delays above their targets.
///
/// The excess objective lets a move that already satisfies some connections
/// concentrate on the ones still blowing their budget instead of chasing the
/// largest absolute delays.
pub(crate) fn assignment_connection_excess(
    graph: &UnifiedGraph<'_>,
    constraints: &PlacementConstraints,
    unit: &PlacementUnit,
    assignment: &Vec<BelId>,
    moving_cell: CellId,
    connections: &[(CellPinId, CellPinId)],
    targets_ps: &[u64],
    placed: &Vec<Option<BelId>>,
    pip_delays_ps: &[u32],
    workspace: &mut PlacementConnectionDelayWorkspace,
) -> (result: Option<u64>)
    requires
        graph.wf(),
        constraints.wf(),
        bindings_in_range(*graph, constraints),
        targets_ps@.len() == connections@.len(),
        pip_delays_ps@.len() == graph.device.pips@.len(),
        old(workspace).holds(graph.device, pip_delays_ps),
    ensures
        final(workspace).holds(graph.device, pip_delays_ps),
        match result {
            Some(excess) => total_excess(
                *graph,
                constraints,
                unit.cells@,
                assignment@,
                moving_cell,
                connections@,
                targets_ps@,
                placed@,
                pip_delays_ps,
            ) == Some(excess as int),
            None => total_excess(
                *graph,
                constraints,
                unit.cells@,
                assignment@,
                moving_cell,
                connections@,
                targets_ps@,
                placed@,
                pip_delays_ps,
            ) is None,
        },
{
    let design = graph.design();
    let mut excess: u64 = 0;
    let mut at: usize = 0;
    while at < connections.len()
        invariant
            at <= connections@.len(),
            design == graph.design,
            graph.wf(),
            constraints.wf(),
            bindings_in_range(*graph, constraints),
            targets_ps@.len() == connections@.len(),
            pip_delays_ps@.len() == graph.device.pips@.len(),
            workspace.holds(graph.device, pip_delays_ps),
            total_excess(
                *graph,
                constraints,
                unit.cells@,
                assignment@,
                moving_cell,
                connections@.take(at as int),
                targets_ps@,
                placed@,
                pip_delays_ps,
            ) == Some(excess as int),
        decreases connections@.len() - at,
    {
        let link = connections[at];
        let ghost longer = connections@.take(at + 1);
        proof {
            assert(longer.drop_last() =~= connections@.take(at as int));
            assert(longer.last() == connections@[at as int]);
            assert(longer.len() - 1 == at);
            if total_excess(
                *graph,
                constraints,
                unit.cells@,
                assignment@,
                moving_cell,
                longer,
                targets_ps@,
                placed@,
                pip_delays_ps,
            ) is None {
                lemma_excess_prefix(
                    *graph,
                    constraints,
                    unit.cells@,
                    assignment@,
                    moving_cell,
                    connections@,
                    targets_ps@,
                    placed@,
                    pip_delays_ps,
                    at + 1,
                );
            }
        }
        if link.0.0 >= design.pins.len() || link.1.0 >= design.pins.len() {
            return None;
        }
        if design.pins[link.0.0].cell != moving_cell && design.pins[link.1.0].cell
            != moving_cell {
            return None;
        }
        let (start, goal) = match find_link_wires(
            graph,
            constraints,
            unit,
            assignment,
            link,
            placed,
        ) {
            Some(pair) => pair,
            None => {
                return None;
            },
        };
        let delay: u64 = match workspace.delay(graph, start, goal, pip_delays_ps) {
            Some(delay) => delay,
            None => {
                return None;
            },
        };
        excess = excess.saturating_add(delay.saturating_sub(targets_ps[at]));
        at = at + 1;
    }
    assert(connections@.take(at as int) =~= connections@);
    Some(excess)
}

} // verus!
