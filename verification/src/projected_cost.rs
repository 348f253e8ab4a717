//! Costs of a unit's connections against the incumbent routes.


use vstd::prelude::*;

use crate::candidates::bindings_in_range;
use crate::connection_cost::{
    find_link_wires, is_least_of, least_price_is_unique, link_wires, LOCAL_MARGIN,
};
use crate::cost::clip_u64;
use crate::device::{Device, UnifiedGraph};
use crate::local_delay::{least_price, HopPrices};
use crate::model::{BelId, CellId, CellPinId, Design, NetId, PipId, Point, WireId};
use crate::ordered::{OrderedKey, OrderedSet};
use crate::placement_constraints::PlacementConstraints;
use crate::projection::{
    listed_owners, owners_of, projected_release_scope_penalty, projected_resource_penalty,
    release_price, released_arcs, ripup_price, victims, ProjectedOwner, RouteCapacityProjection,
};
use crate::route::{NetRoute, RouteArc};
use crate::row_cost::has_cell;
use crate::search::{
    corridor_between, inside_corridor, point_inside_corridor, routing_corridor, RoutingCorridor,
};
use crate::units::PlacementUnit;

verus! {

/// Price of taking a resource from its owners.
pub open spec fn owner_price(owners: Seq<ProjectedOwner>, net: NetId, capacity: u16) -> int {
    ripup_price(victims(owners, net, capacity))
}

/// Price of releasing the arcs of the owners that give a resource up.
pub open spec fn scope_price(owners: Seq<ProjectedOwner>, net: NetId, capacity: u16) -> int {
    release_price(released_arcs(owners, victims(owners, net, capacity)))
}

/// Prices of hops against the incumbent routes.
pub struct ProjectedPrices<'a> {
    /// Device.
    pub device: &'a Device,
    /// Delay of each PIP.
    pub delays: &'a [u32],
    /// Corridor of the walk.
    pub corridor: RoutingCorridor,
    /// Wires that the walk may start from, and does not enter again.
    pub starts: &'a OrderedSet<WireId>,
    /// Net that is routed.
    pub net: NetId,
    /// Incumbent routes.
    pub projection: &'a RouteCapacityProjection,
}

impl<'a> HopPrices for ProjectedPrices<'a> {
    open spec fn hop(&self, pip: PipId, to: WireId) -> Option<int> {
        if self.starts@.contains(to) || !inside_corridor(
            self.device.wires@[to.0 as int].point,
            self.corridor,
        ) {
            None
        } else {
            let wire_capacity = self.device.wires@[to.0 as int].capacity;
            let pip_capacity = self.device.pips@[pip.0 as int].capacity;
            let wire_owners = owners_of(self.projection.wire_owners@, to);
            let pip_owners = owners_of(self.projection.pip_owners@, pip);
            Some(
                clip_u64(
                    self.delays@[pip.0 as int] + owner_price(wire_owners, self.net, wire_capacity)
                        + owner_price(pip_owners, self.net, pip_capacity) + scope_price(
                        wire_owners,
                        self.net,
                        wire_capacity,
                    ) + scope_price(pip_owners, self.net, pip_capacity),
                ),
            )
        }
    }

    open spec fn prices(&self, device: &Device) -> bool {
        &&& *self.device == *device
        &&& self.delays@.len() == device.pips@.len()
        &&& self.starts.wf()
        &&& self.projection.wf()
    }

    proof fn hop_range(&self, pip: PipId, to: WireId) {
        lemma_ripup_range(
            victims(
                owners_of(self.projection.wire_owners@, to),
                self.net,
                self.device.wires@[to.0 as int].capacity,
            ),
        );
        lemma_ripup_range(
            victims(
                owners_of(self.projection.pip_owners@, pip),
                self.net,
                self.device.pips@[pip.0 as int].capacity,
            ),
        );
    }

    fn find_hop(&self, pip: PipId, to: WireId, device: &Device) -> (result: Option<u64>) {
        if self.starts.contains(to) || !point_inside_corridor(
            self.device.wires[to.0].point,
            self.corridor,
        ) {
            return None;
        }
        let wire_capacity: u16 = self.device.wires[to.0].capacity;
        let pip_capacity: u16 = self.device.pips[pip.0].capacity;
        let wire_owners = self.projection.wire_owners.get(to);
        let pip_owners = self.projection.pip_owners.get(pip);
        proof {
            assert(listed_owners(wire_owners) == owners_of(self.projection.wire_owners@, to));
            assert(listed_owners(pip_owners) == owners_of(self.projection.pip_owners@, pip));
            self.hop_range(pip, to);
            lemma_ripup_range(
                victims(listed_owners(wire_owners), self.net, wire_capacity),
            );
            lemma_ripup_range(victims(listed_owners(pip_owners), self.net, pip_capacity));
        }
        let conflict: u64 = projected_resource_penalty(
            wire_owners,
            self.net,
            wire_capacity,
        ).saturating_add(
            projected_resource_penalty(pip_owners, self.net, pip_capacity),
        ).saturating_add(
            projected_release_scope_penalty(wire_owners, self.net, wire_capacity),
        ).saturating_add(projected_release_scope_penalty(pip_owners, self.net, pip_capacity));
        Some((self.delays[pip.0] as u64).saturating_add(conflict))
    }
}

/// Prices of victims are not negative.
proof fn lemma_ripup_range(list: Seq<crate::projection::VictimOrder>)
    ensures
        0 <= ripup_price(list) <= u64::MAX,
    decreases list.len(),
{
    if list.len() > 0 {
        lemma_ripup_range(list.drop_last());
        assert(list.last().criticality * crate::projection::CRITICALITY_PENALTY_PS >= 0)
            by (nonlinear_arith);
    }
}

/// The one tile is nearer to the goal, or comes first at the same distance.
pub open spec fn is_nearer(a: Point, b: Point, goal: Point) -> bool {
    a.distance(goal) < b.distance(goal) || (a.distance(goal) == b.distance(goal) && a.rank()
        < b.rank())
}

/// Tile of the wire nearest to the goal.
pub open spec fn nearest_point(device: &Device, wires: Seq<WireId>, goal: Point) -> Point
    decreases wires.len(),
{
    let point = device.wires@[wires.last().0 as int].point;
    if wires.len() <= 1 {
        point
    } else {
        let rest = nearest_point(device, wires.drop_last(), goal);
        if is_nearer(point, rest, goal) {
            point
        } else {
            rest
        }
    }
}

/// Corridor between the nearest start and the goal.
pub open spec fn start_corridor(device: &Device, starts: Seq<WireId>, goal: WireId) -> RoutingCorridor {
    corridor_between(
        nearest_point(device, starts, device.wires@[goal.0 as int].point),
        device.wires@[goal.0 as int].point,
        device,
        LOCAL_MARGIN as int,
    )
}

/// Starts inside the corridor.
pub open spec fn starts_inside(
    device: &Device,
    starts: Set<WireId>,
    corridor: RoutingCorridor,
) -> Set<WireId> {
    Set::new(
        |w: WireId|
            starts.contains(w) && inside_corridor(device.wires@[w.0 as int].point, corridor),
    )
}

/// Prices of a walk from the starts to the goal.
pub open spec fn prices_from<'a>(
    device: &'a Device,
    delays: &'a [u32],
    starts: &'a OrderedSet<WireId>,
    goal: WireId,
    net: NetId,
    projection: &'a RouteCapacityProjection,
) -> ProjectedPrices<'a> {
    ProjectedPrices {
        device,
        delays,
        corridor: start_corridor(device, starts.ordered(), goal),
        starts,
        net,
        projection,
    }
}

/// The price of a cheapest short walk from the starts to the goal, if there is one.
pub open spec fn is_projected_cost(
    device: &Device,
    delays: &[u32],
    starts: &OrderedSet<WireId>,
    goal: WireId,
    net: NetId,
    projection: &RouteCapacityProjection,
    result: Option<u64>,
) -> bool {
    if starts.ordered().len() == 0 {
        result is None
    } else {
        is_least_of(
            device,
            &prices_from(device, delays, starts, goal, net, projection),
            starts_inside(
                device,
                starts@,
                start_corridor(device, starts.ordered(), goal),
            ),
            goal,
            result,
        )
    }
}

/// The price of a cheapest short walk from the starts to the goal.
pub open spec fn projected_cost(
    device: &Device,
    delays: &[u32],
    starts: &OrderedSet<WireId>,
    goal: WireId,
    net: NetId,
    projection: &RouteCapacityProjection,
) -> Option<u64> {
    choose|result: Option<u64>| #[trigger]
        is_projected_cost(device, delays, starts, goal, net, projection, result)
}

/// Tile of the start nearest to the goal.
fn find_nearest(device: &Device, starts: &OrderedSet<WireId>, goal: Point) -> (result: Point)
    requires
        starts.ordered().len() > 0,
        forall|w: WireId| #[trigger] starts@.contains(w) ==> w.0 < device.wires@.len(),
    ensures
        result == nearest_point(device, starts.ordered(), goal),
{
    let ghost list = starts.ordered();
    proof {
        starts.membership(list[0]);
        assert(list.contains(list[0]));
    }
    let mut best = device.wires[starts.at(0).0].point;
    let mut at: usize = 1;
    assert(list.take(1).last() == list[0]);
    while at < starts.len()
        invariant
            1 <= at <= list.len(),
            list == starts.ordered(),
            forall|w: WireId| #[trigger] starts@.contains(w) ==> w.0 < device.wires@.len(),
            best == nearest_point(device, list.take(at as int), goal),
        decreases list.len() - at,
    {
        let wire = starts.at(at);
        proof {
            starts.membership(wire);
            assert(list.contains(list[at as int]));
            assert(starts@.contains(wire));
            assert(list.take(at + 1).drop_last() =~= list.take(at as int));
            assert(list.take(at + 1).last() == wire);
        }
        let point = device.wires[wire.0].point;
        let near: u64 = point.manhattan(goal);
        let known: u64 = best.manhattan(goal);
        if near < known || (near == known && point.precedes(best)) {
            best = point;
        }
        at = at + 1;
    }
    assert(list.take(at as int) =~= list);
    best
}

/// The price of a cheapest short walk from the starts to the goal.
pub fn local_connection_projected_cost_from_starts(
    graph: &UnifiedGraph<'_>,
    starts: &OrderedSet<WireId>,
    goal: WireId,
    pip_delays_ps: &[u32],
    net: NetId,
    projection: &RouteCapacityProjection,
) -> (result: Option<u64>)
    requires
        graph.wf(),
        starts.wf(),
        projection.wf(),
        forall|w: WireId| #[trigger] starts@.contains(w) ==> w.0 < graph.device.wires@.len(),
        goal.0 < graph.device.wires@.len(),
        pip_delays_ps@.len() == graph.device.pips@.len(),
    ensures
        is_projected_cost(
            graph.device,
            pip_delays_ps,
            starts,
            goal,
            net,
            projection,
            result,
        ),
        result == projected_cost(
            graph.device,
            pip_delays_ps,
            starts,
            goal,
            net,
            projection,
        ),
{
    let device = graph.device();
    if starts.is_empty() {
        assert(is_projected_cost(device, pip_delays_ps, starts, goal, net, projection, None));
        return None;
    }
    let goal_point = device.wires[goal.0].point;
    let start_point = find_nearest(device, starts, goal_point);
    let corridor = routing_corridor(start_point, goal_point, device, LOCAL_MARGIN);
    let prices = ProjectedPrices {
        device,
        delays: pip_delays_ps,
        corridor,
        starts,
        net,
        projection,
    };
    let ghost list = starts.ordered();
    let mut sources: Vec<WireId> = Vec::new();
    let mut at: usize = 0;
    while at < starts.len()
        invariant
            at <= list.len(),
            list == starts.ordered(),
            starts.wf(),
            forall|w: WireId| #[trigger] starts@.contains(w) ==> w.0 < device.wires@.len(),
            forall|i: int|
                0 <= i < sources@.len() ==> (#[trigger] sources@[i]).0 < device.wires@.len(),
            forall|w: WireId| #[trigger]
                sources@.contains(w) <==> list.take(at as int).contains(w) && inside_corridor(
                    device.wires@[w.0 as int].point,
                    corridor,
                ),
        decreases list.len() - at,
    {
        let wire = starts.at(at);
        let ghost before = sources@;
        proof {
            starts.membership(wire);
            assert(list.contains(list[at as int]));
            assert(starts@.contains(wire));
        }
        if point_inside_corridor(device.wires[wire.0].point, corridor) {
            sources.push(wire);
        }
        proof {
            let shorter = list.take(at as int);
            let longer = list.take(at + 1);
            assert(longer =~= shorter.push(wire));
            assert forall|w: WireId| #[trigger] sources@.contains(w) <==> longer.contains(w)
                && inside_corridor(device.wires@[w.0 as int].point, corridor) by {
                assert(before.contains(w) <==> shorter.contains(w) && inside_corridor(
                    device.wires@[w.0 as int].point,
                    corridor,
                ));
                assert(longer[at as int] == wire);
                if shorter.contains(w) {
                    let k = shorter.index_of(w);
                    assert(longer[k] == w);
                }
                if longer.contains(w) && w != wire {
                    let k = longer.index_of(w);
                    assert(shorter[k] == w);
                }
                if before.contains(w) {
                    let k = before.index_of(w);
                    assert(sources@[k] == w);
                }
                if sources@.len() > before.len() {
                    assert(sources@[before.len() as int] == wire);
                }
                if sources@.contains(w) && w != wire {
                    let k = sources@.index_of(w);
                    assert(before[k] == w);
                }
            }
        }
        at = at + 1;
    }
    proof {
        assert(list.take(at as int) =~= list);
        assert forall|w: WireId| sources@.to_set().contains(w) <==> starts_inside(
            device,
            starts@,
            corridor,
        ).contains(w) by {
            starts.membership(w);
        }
        assert(sources@.to_set() =~= starts_inside(device, starts@, corridor));
        assert(prices == prices_from(device, pip_delays_ps, starts, goal, net, projection));
    }
    let result = least_price(graph, &prices, &sources, goal);
    proof {
        assert(is_projected_cost(
            device,
            pip_delays_ps,
            starts,
            goal,
            net,
            projection,
            result,
        ));
        least_price_is_unique(
            device,
            &prices_from(device, pip_delays_ps, starts, goal, net, projection),
            starts_inside(device, starts@, corridor),
            goal,
            result,
            projected_cost(device, pip_delays_ps, starts, goal, net, projection),
        );
    }
    result
}

/// The arc leads to no cell of the unit.
pub open spec fn leads_outside(design: &Design, cells: Seq<CellId>, arc: RouteArc) -> bool {
    arc.sink matches Some(sink) ==> !cells.contains(design.pins@[sink.0 as int].cell)
}

/// Wires of the arcs of a route that lead to no cell of the unit.
pub open spec fn retained_wires(design: &Design, cells: Seq<CellId>, route: NetRoute) -> Set<
    WireId,
> {
    Set::new(
        |w: WireId|
            exists|i: int|
                0 <= i < route.arcs@.len() && leads_outside(
                    design,
                    cells,
                    #[trigger] route.arcs@[i],
                ) && route.arcs@[i].wires@.contains(w),
    )
}

/// Wires that a connection to the unit may start from: those of the net's
/// other arcs, where there are any.
pub open spec fn retained_starts(
    design: &Design,
    cells: Seq<CellId>,
    link: (CellPinId, CellPinId),
    projection: &RouteCapacityProjection,
) -> Option<Set<WireId>> {
    if link.0.0 >= design.pins@.len() || link.1.0 >= design.pins@.len() || !cells.contains(
        design.pins@[link.1.0 as int].cell,
    ) {
        None
    } else {
        match design.pins@[link.0.0 as int].net {
            None => None,
            Some(net) => if !projection.routes@.contains_key(net) {
                None
            } else {
                let wires = retained_wires(design, cells, *projection.routes@[net]);
                if wires == Set::<WireId>::empty() {
                    None
                } else {
                    Some(wires)
                }
            },
        }
    }
}

/// The projected routes lead to pins of the design over wires of the device.
pub open spec fn projection_fits(
    graph: UnifiedGraph<'_>,
    projection: &RouteCapacityProjection,
) -> bool {
    &&& projection.wf()
    &&& forall|n: NetId, i: int|
        #![trigger projection.routes@[n].arcs@[i]]
        projection.routes@.contains_key(n) && 0 <= i < projection.routes@[n].arcs@.len() ==> {
            let arc = projection.routes@[n].arcs@[i];
            &&& arc.sink matches Some(sink) ==> sink.0 < graph.design.pins@.len()
            &&& forall|k: int|
                0 <= k < arc.wires@.len() ==> (#[trigger] arc.wires@[k]).0
                    < graph.device.wires@.len()
        }
}

/// The found starts are those of the connection.
pub open spec fn starts_found(expected: Option<Set<WireId>>, found: Option<OrderedSet<WireId>>) -> bool {
    match found {
        None => expected is None,
        Some(set) => set.wf() && expected == Some(set@),
    }
}

/// Wires of the arcs of a route that lead to no cell of the unit.
fn find_retained_wires(
    graph: &UnifiedGraph<'_>,
    cells: &Vec<CellId>,
    route: &NetRoute,
) -> (result: OrderedSet<WireId>)
    requires
        forall|i: int|
            0 <= i < route.arcs@.len() ==> ((#[trigger] route.arcs@[i]).sink matches Some(sink)
                ==> sink.0 < graph.design.pins@.len()),
    ensures
        result.wf(),
        result@ == retained_wires(graph.design, cells@, *route),
{
    let design = graph.design();
    let mut result: OrderedSet<WireId> = OrderedSet::new();
    let mut at: usize = 0;
    while at < route.arcs.len()
        invariant
            at <= route.arcs@.len(),
            design == graph.design,
            forall|i: int|
                0 <= i < route.arcs@.len() ==> ((#[trigger] route.arcs@[i]).sink matches Some(sink)
                    ==> sink.0 < graph.design.pins@.len()),
            result.wf(),
            forall|w: WireId| #[trigger]
                result@.contains(w) <==> exists|i: int|
                    0 <= i < at && leads_outside(design, cells@, #[trigger] route.arcs@[i])
                        && route.arcs@[i].wires@.contains(w),
        decreases route.arcs@.len() - at,
    {
        let arc = &route.arcs[at];
        let ghost before = result@;
        assert(route.arcs@[at as int].sink matches Some(sink) ==> sink.0
            < graph.design.pins@.len());
        let outside = match arc.sink {
            None => true,
            Some(sink) => !has_cell(cells, design.pins[sink.0].cell),
        };
        if outside {
            result.extend(arc.wires.as_slice());
        }
        proof {
            assert forall|w: WireId| #[trigger] result@.contains(w) <==> exists|i: int|
                0 <= i < at + 1 && leads_outside(design, cells@, #[trigger] route.arcs@[i])
                    && route.arcs@[i].wires@.contains(w) by {
                if before.contains(w) {
                    let i = choose|i: int|
                        0 <= i < at && leads_outside(design, cells@, #[trigger] route.arcs@[i])
                            && route.arcs@[i].wires@.contains(w);
                    assert(leads_outside(design, cells@, route.arcs@[i]));
                }
                if outside && arc.wires@.contains(w) {
                    assert(arc.wires@.to_set().contains(w));
                    assert(leads_outside(design, cells@, route.arcs@[at as int]));
                }
                if exists|i: int|
                    0 <= i < at + 1 && leads_outside(design, cells@, #[trigger] route.arcs@[i])
                        && route.arcs@[i].wires@.contains(w) {
                    let i = choose|i: int|
                        0 <= i < at + 1 && leads_outside(design, cells@, #[trigger] route.arcs@[i])
                            && route.arcs@[i].wires@.contains(w);
                    if i < at {
                        assert(before.contains(w));
                    }
                }
            }
        }
        at = at + 1;
    }
    assert(result@ =~= retained_wires(design, cells@, *route));
    result
}

/// Starts of every connection.
pub fn projected_retained_tree_starts(
    graph: &UnifiedGraph<'_>,
    unit: &PlacementUnit,
    connections: &Vec<(CellPinId, CellPinId)>,
    projection: &RouteCapacityProjection,
) -> (result: Vec<Option<OrderedSet<WireId>>>)
    requires
        projection_fits(*graph, projection),
    ensures
        result@.len() == connections@.len(),
        forall|i: int|
            0 <= i < result@.len() ==> starts_found(
                retained_starts(graph.design, unit.cells@, connections@[i], projection),
                #[trigger] result@[i],
            ),
{
    let design = graph.design();
    let mut result: Vec<Option<OrderedSet<WireId>>> = Vec::new();
    let mut at: usize = 0;
    while at < connections.len()
        invariant
            at <= connections@.len(),
            design == graph.design,
            projection_fits(*graph, projection),
            result@.len() == at,
            forall|i: int|
                0 <= i < at ==> starts_found(
                    retained_starts(graph.design, unit.cells@, connections@[i], projection),
                    #[trigger] result@[i],
                ),
        decreases connections@.len() - at,
    {
        let link = connections[at];
        let mut found: Option<OrderedSet<WireId>> = None;
        if link.0.0 < design.pins.len() && link.1.0 < design.pins.len() {
            if has_cell(&unit.cells, design.pins[link.1.0].cell) {
                if let Some(net) = design.pins[link.0.0].net {
                    if let Some(route) = projection.routes.get(net) {
                        proof {
                            assert forall|i: int| 0 <= i < route.arcs@.len() implies ((
                            #[trigger] route.arcs@[i]).sink matches Some(sink) ==> sink.0
                                < graph.design.pins@.len()) by {
                                assert(projection.routes@[net].arcs@[i] == route.arcs@[i]);
                            }
                        }
                        let wires = find_retained_wires(graph, &unit.cells, route);
                        if !wires.is_empty() {
                            proof {
                                assert(wires@ != Set::<WireId>::empty()) by {
                                    wires.membership(wires.ordered()[0]);
                                    assert(wires.ordered().contains(wires.ordered()[0]));
                                }
                            }
                            found = Some(wires);
                        } else {
                            proof {
                                assert(wires@ =~= Set::<WireId>::empty()) by {
                                    assert forall|w: WireId| !wires@.contains(w) by {
                                        wires.membership(w);
                                    }
                                }
                            }
                        }
                    }
                }
            }
        }
        result.push(found);
        at = at + 1;
    }
    result
}

/// Price of a connection that crosses the boundary of the unit.
pub open spec fn is_link_price(
    graph: UnifiedGraph<'_>,
    constraints: &PlacementConstraints,
    cells: Seq<CellId>,
    row: Seq<BelId>,
    link: (CellPinId, CellPinId),
    placed: Seq<Option<BelId>>,
    delays: &[u32],
    projection: &RouteCapacityProjection,
    price: Option<u64>,
) -> bool {
    let pins = graph.design.pins@;
    if link.0.0 >= pins.len() || link.1.0 >= pins.len() || cells.contains(
        pins[link.0.0 as int].cell,
    ) == cells.contains(pins[link.1.0 as int].cell) {
        price is None
    } else {
        match (
            pins[link.0.0 as int].net,
            link_wires(graph, constraints, cells, row, link, placed),
        ) {
            (Some(net), Some(pair)) => exists|starts: OrderedSet<WireId>|
                {
                    &&& starts.wf()
                    &&& starts@ == match retained_starts(graph.design, cells, link, projection) {
                        Some(wires) => wires,
                        None => set![pair.0],
                    }
                    &&& #[trigger] is_projected_cost(
                        graph.device,
                        delays,
                        &starts,
                        pair.1,
                        net,
                        projection,
                        price,
                    )
                },
            _ => price is None,
        }
    }
}

/// Sum of some prices.
pub open spec fn price_sum(prices: Seq<u64>) -> int
    decreases prices.len(),
{
    if prices.len() == 0 {
        0
    } else {
        clip_u64(price_sum(prices.drop_last()) + prices.last())
    }
}

/// The prices are those of the first connections.
pub open spec fn are_link_prices(
    graph: UnifiedGraph<'_>,
    constraints: &PlacementConstraints,
    cells: Seq<CellId>,
    row: Seq<BelId>,
    links: Seq<(CellPinId, CellPinId)>,
    placed: Seq<Option<BelId>>,
    delays: &[u32],
    projection: &RouteCapacityProjection,
    prices: Seq<u64>,
) -> bool {
    &&& prices.len() <= links.len()
    &&& forall|i: int|
        0 <= i < prices.len() ==> is_link_price(
            graph,
            constraints,
            cells,
            row,
            links[i],
            placed,
            delays,
            projection,
            Some(#[trigger] prices[i]),
        )
}

/// Sum of the prices of the connections; none where one of them has none.
pub open spec fn is_total_price(
    graph: UnifiedGraph<'_>,
    constraints: &PlacementConstraints,
    cells: Seq<CellId>,
    row: Seq<BelId>,
    links: Seq<(CellPinId, CellPinId)>,
    placed: Seq<Option<BelId>>,
    delays: &[u32],
    projection: &RouteCapacityProjection,
    total: Option<u64>,
) -> bool {
    match total {
        Some(sum) => exists|prices: Seq<u64>|
            {
                &&& #[trigger] are_link_prices(
                    graph,
                    constraints,
                    cells,
                    row,
                    links,
                    placed,
                    delays,
                    projection,
                    prices,
                )
                &&& prices.len() == links.len()
                &&& price_sum(prices) == sum
            },
        None => exists|i: int|
            0 <= i < links.len() && is_link_price(
                graph,
                constraints,
                cells,
                row,
                #[trigger] links[i],
                placed,
                delays,
                projection,
                None,
            ),
    }
}

/// Price of one connection.
fn find_link_price(
    graph: &UnifiedGraph<'_>,
    constraints: &PlacementConstraints,
    unit: &PlacementUnit,
    assignment: &Vec<BelId>,
    link: (CellPinId, CellPinId),
    retained: &Option<OrderedSet<WireId>>,
    placed: &Vec<Option<BelId>>,
    pip_delays_ps: &[u32],
    projection: &RouteCapacityProjection,
) -> (result: Option<u64>)
    requires
        graph.wf(),
        constraints.wf(),
        bindings_in_range(*graph, constraints),
        projection_fits(*graph, projection),
        pip_delays_ps@.len() == graph.device.pips@.len(),
        starts_found(
            retained_starts(graph.design, unit.cells@, link, projection),
            *retained,
        ),
    ensures
        is_link_price(
            *graph,
            constraints,
            unit.cells@,
            assignment@,
            link,
            placed@,
            pip_delays_ps,
            projection,
            result,
        ),
{
    let design = graph.design();
    if link.0.0 >= design.pins.len() || link.1.0 >= design.pins.len() {
        return None;
    }
    if has_cell(&unit.cells, design.pins[link.0.0].cell) == has_cell(
        &unit.cells,
        design.pins[link.1.0].cell,
    ) {
        return None;
    }
    let net = match design.pins[link.0.0].net {
        Some(net) => net,
        None => {
            return None;
        },
    };
    let (start, goal) = match find_link_wires(graph, constraints, unit, assignment, link, placed) {
        Some(pair) => pair,
        None => {
            return None;
        },
    };
    match retained {
        Some(starts) => {
            proof {
                lemma_retained_in_range(*graph, unit.cells@, link, projection);
            }
            let price = local_connection_projected_cost_from_starts(
                graph,
                starts,
                goal,
                pip_delays_ps,
                net,
                projection,
            );
            assert(is_projected_cost(
                graph.device,
                pip_delays_ps,
                starts,
                goal,
                net,
                projection,
                price,
            ));
            price
        },
        None => {
            let mut starts: OrderedSet<WireId> = OrderedSet::new();
            starts.insert(start);
            assert(starts@ =~= set![start]);
            let price = local_connection_projected_cost_from_starts(
                graph,
                &starts,
                goal,
                pip_delays_ps,
                net,
                projection,
            );
            assert(is_projected_cost(
                graph.device,
                pip_delays_ps,
                &starts,
                goal,
                net,
                projection,
                price,
            ));
            price
        },
    }
}

/// Retained starts are wires of the device.
proof fn lemma_retained_in_range(
    graph: UnifiedGraph<'_>,
    cells: Seq<CellId>,
    link: (CellPinId, CellPinId),
    projection: &RouteCapacityProjection,
)
    requires
        projection_fits(graph, projection),
    ensures
        retained_starts(graph.design, cells, link, projection) matches Some(wires)
            ==> forall|w: WireId| #[trigger] wires.contains(w) ==> w.0 < graph.device.wires@.len(),
{
    if let Some(wires) = retained_starts(graph.design, cells, link, projection) {
        let net = graph.design.pins@[link.0.0 as int].net->0;
        let route = *projection.routes@[net];
        assert forall|w: WireId| #[trigger] wires.contains(w) implies w.0
            < graph.device.wires@.len() by {
            let i = choose|i: int|
                0 <= i < route.arcs@.len() && leads_outside(
                    graph.design,
                    cells,
                    #[trigger] route.arcs@[i],
                ) && route.arcs@[i].wires@.contains(w);
            let k = route.arcs@[i].wires@.index_of(w);
            assert(projection.routes@[net].arcs@[i].wires@[k] == w);
        }
    }
}

/// Price of all connections against the incumbent routes.
pub fn assignment_connection_projected_cost(
    graph: &UnifiedGraph<'_>,
    constraints: &PlacementConstraints,
    unit: &PlacementUnit,
    assignment: &Vec<BelId>,
    connections: &Vec<(CellPinId, CellPinId)>,
    retained: &Vec<Option<OrderedSet<WireId>>>,
    placed: &Vec<Option<BelId>>,
    pip_delays_ps: &[u32],
    projection: &RouteCapacityProjection,
) -> (result: Option<u64>)
    requires
        graph.wf(),
        constraints.wf(),
        bindings_in_range(*graph, constraints),
        projection_fits(*graph, projection),
        pip_delays_ps@.len() == graph.device.pips@.len(),
        retained@.len() == connections@.len(),
        forall|i: int|
            0 <= i < retained@.len() ==> starts_found(
                retained_starts(graph.design, unit.cells@, connections@[i], projection),
                #[trigger] retained@[i],
            ),
    ensures
        is_total_price(
            *graph,
            constraints,
            unit.cells@,
            assignment@,
            connections@,
            placed@,
            pip_delays_ps,
            projection,
            result,
        ),
{
    let mut total: u64 = 0;
    let ghost mut prices: Seq<u64> = Seq::empty();
    let mut at: usize = 0;
    while at < connections.len()
        invariant
            at <= connections@.len(),
            graph.wf(),
            constraints.wf(),
            bindings_in_range(*graph, constraints),
            projection_fits(*graph, projection),
            pip_delays_ps@.len() == graph.device.pips@.len(),
            retained@.len() == connections@.len(),
            forall|i: int|
                0 <= i < retained@.len() ==> starts_found(
                    retained_starts(graph.design, unit.cells@, connections@[i], projection),
                    #[trigger] retained@[i],
                ),
            prices.len() == at,
            are_link_prices(
                *graph,
                constraints,
                unit.cells@,
                assignment@,
                connections@,
                placed@,
                pip_delays_ps,
                projection,
                prices,
            ),
            total == price_sum(prices),
        decreases connections@.len() - at,
    {
        assert(starts_found(
            retained_starts(graph.design, unit.cells@, connections@[at as int], projection),
            retained@[at as int],
        ));
        match find_link_price(
            graph,
            constraints,
            unit,
            assignment,
            connections[at],
            &retained[at],
            placed,
            pip_delays_ps,
            projection,
        ) {
            None => {
                assert(is_link_price(
                    *graph,
                    constraints,
                    unit.cells@,
                    assignment@,
                    connections@[at as int],
                    placed@,
                    pip_delays_ps,
                    projection,
                    None,
                ));
                return None;
            },
            Some(more) => {
                total = total.saturating_add(more);
                proof {
                    let longer = prices.push(more);
                    assert(longer.drop_last() =~= prices);
                    prices = longer;
                }
            },
        }
        at = at + 1;
    }
    Some(total)
}

/// The connection has one end inside the unit and one outside.
pub open spec fn crosses(design: &Design, cells: Seq<CellId>, driver: CellPinId, sink: CellPinId) -> bool {
    cells.contains(design.pins@[driver.0 as int].cell) != cells.contains(
        design.pins@[sink.0 as int].cell,
    )
}

/// A driver pin with a sink pin.
#[derive(Clone, Copy, Debug, PartialEq, Eq, Structural)]
pub struct PinPair {
    /// Driving pin.
    pub driver: CellPinId,
    /// Driven pin.
    pub sink: CellPinId,
}

impl OrderedKey for PinPair {
    open spec fn rank(self) -> int {
        self.driver.0 * 0x1_0000_0000_0000_0000 + self.sink.0
    }

    proof fn rank_is_injective(a: Self, b: Self) {
    }

    fn precedes(self, other: Self) -> (result: bool) {
        self.driver.0 < other.driver.0 || (self.driver.0 == other.driver.0 && self.sink.0
            < other.sink.0)
    }
}

/// The pair is a connection of a net that crosses the boundary of the unit.
pub open spec fn is_external(design: &Design, cells: Seq<CellId>, pair: PinPair) -> bool {
    exists|n: int|
        {
            &&& 0 <= n < design.nets@.len()
            &&& (#[trigger] design.nets@[n]).driver == pair.driver
            &&& design.nets@[n].sinks@.contains(pair.sink)
            &&& crosses(design, cells, pair.driver, pair.sink)
        }
}

/// Every connection that crosses the boundary of the unit, in order.
pub fn external_unit_connections(design: &Design, unit: &PlacementUnit) -> (result: Vec<
    (CellPinId, CellPinId),
>)
    requires
        design.wf(),
    ensures
        forall|i: int, j: int|
            0 <= i < j < result@.len() ==> (PinPair {
                driver: (#[trigger] result@[i]).0,
                sink: result@[i].1,
            }).rank() < (PinPair { driver: (#[trigger] result@[j]).0, sink: result@[j].1 }).rank(),
        forall|driver: CellPinId, sink: CellPinId| #[trigger]
            result@.contains((driver, sink)) <==> is_external(
                design,
                unit.cells@,
                PinPair { driver, sink },
            ),
{
    let mut found: OrderedSet<PinPair> = OrderedSet::new();
    let mut index: usize = 0;
    while index < design.nets.len()
        invariant
            index <= design.nets@.len(),
            design.wf(),
            found.wf(),
            forall|p: PinPair| #[trigger]
                found@.contains(p) <==> exists|n: int|
                    {
                        &&& 0 <= n < index
                        &&& (#[trigger] design.nets@[n]).driver == p.driver
                        &&& design.nets@[n].sinks@.contains(p.sink)
                        &&& crosses(design, unit.cells@, p.driver, p.sink)
                    },
        decreases design.nets@.len() - index,
    {
        let net = &design.nets[index];
        let ghost before = found@;
        let inside = has_cell(&unit.cells, design.pins[net.driver.0].cell);
        let mut at: usize = 0;
        while at < net.sinks.len()
            invariant
                at <= net.sinks@.len(),
                index < design.nets@.len(),
                *net == design.nets@[index as int],
                design.wf(),
                inside == unit.cells@.contains(design.pins@[net.driver.0 as int].cell),
                found.wf(),
                forall|p: PinPair| #[trigger]
                    found@.contains(p) <==> before.contains(p) || (p.driver == net.driver
                        && net.sinks@.take(at as int).contains(p.sink) && crosses(
                        design,
                        unit.cells@,
                        p.driver,
                        p.sink,
                    )),
            decreases net.sinks@.len() - at,
        {
            let sink = net.sinks[at];
            assert(design.nets@[index as int].sinks@[at as int] == sink);
            let ghost middle = found@;
            if inside != has_cell(&unit.cells, design.pins[sink.0].cell) {
                found.insert(PinPair { driver: net.driver, sink });
            }
            proof {
                let shorter = net.sinks@.take(at as int);
                let longer = net.sinks@.take(at + 1);
                assert(longer =~= shorter.push(sink));
                assert forall|p: PinPair| #[trigger] found@.contains(p) <==> before.contains(p) || (
                p.driver == net.driver && longer.contains(p.sink) && crosses(
                    design,
                    unit.cells@,
                    p.driver,
                    p.sink,
                )) by {
                    assert(middle.contains(p) <==> before.contains(p) || (p.driver == net.driver
                        && shorter.contains(p.sink) && crosses(
                        design,
                        unit.cells@,
                        p.driver,
                        p.sink,
                    )));
                    assert(longer[at as int] == sink);
                    if shorter.contains(p.sink) {
                        let k = shorter.index_of(p.sink);
                        assert(longer[k] == p.sink);
                    }
                    if longer.contains(p.sink) && p.sink != sink {
                        let k = longer.index_of(p.sink);
                        assert(shorter[k] == p.sink);
                    }
                }
            }
            at = at + 1;
        }
        proof {
            assert(net.sinks@.take(at as int) =~= net.sinks@);
            assert forall|p: PinPair| #[trigger] found@.contains(p) <==> exists|n: int|
                {
                    &&& 0 <= n < index + 1
                    &&& (#[trigger] design.nets@[n]).driver == p.driver
                    &&& design.nets@[n].sinks@.contains(p.sink)
                    &&& crosses(design, unit.cells@, p.driver, p.sink)
                } by {
                if before.contains(p) {
                    let n = choose|n: int|
                        {
                            &&& 0 <= n < index
                            &&& (#[trigger] design.nets@[n]).driver == p.driver
                            &&& design.nets@[n].sinks@.contains(p.sink)
                            &&& crosses(design, unit.cells@, p.driver, p.sink)
                        };
                    assert(design.nets@[n].driver == p.driver);
                } else if found@.contains(p) {
                    assert(design.nets@[index as int].driver == p.driver);
                }
                if exists|n: int|
                    {
                        &&& 0 <= n < index + 1
                        &&& (#[trigger] design.nets@[n]).driver == p.driver
                        &&& design.nets@[n].sinks@.contains(p.sink)
                        &&& crosses(design, unit.cells@, p.driver, p.sink)
                    } {
                    let n = choose|n: int|
                        {
                            &&& 0 <= n < index + 1
                            &&& (#[trigger] design.nets@[n]).driver == p.driver
                            &&& design.nets@[n].sinks@.contains(p.sink)
                            &&& crosses(design, unit.cells@, p.driver, p.sink)
                        };
                    if n < index {
                        assert(before.contains(p));
                    }
                }
            }
        }
        index = index + 1;
    }
    let ghost list = found.ordered();
    let mut result: Vec<(CellPinId, CellPinId)> = Vec::new();
    let mut at: usize = 0;
    while at < found.len()
        invariant
            at <= list.len(),
            list == found.ordered(),
            result@.len() == at,
            forall|i: int|
                0 <= i < at ==> #[trigger] result@[i] == (list[i].driver, list[i].sink),
        decreases list.len() - at,
    {
        let pair = found.at(at);
        result.push((pair.driver, pair.sink));
        at = at + 1;
    }
    proof {
        assert forall|i: int, j: int| 0 <= i < j < result@.len() implies (PinPair {
            driver: (#[trigger] result@[i]).0,
            sink: result@[i].1,
        }).rank() < (PinPair { driver: (#[trigger] result@[j]).0, sink: result@[j].1 }).rank() by {
            assert(list[i].rank() < list[j].rank());
        }
        assert forall|driver: CellPinId, sink: CellPinId| #[trigger]
            result@.contains((driver, sink)) <==> is_external(
            design,
            unit.cells@,
            PinPair { driver, sink },
        ) by {
            let pair = PinPair { driver, sink };
            found.membership(pair);
            if result@.contains((driver, sink)) {
                let k = result@.index_of((driver, sink));
                assert(list[k] == pair);
                assert(list.contains(pair));
            }
            if found@.contains(pair) {
                let k = list.index_of(pair);
                assert(result@[k] == (driver, sink));
            }
        }
    }
    result
}

} // verus!
