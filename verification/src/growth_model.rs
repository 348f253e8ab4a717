//! How a net's route grows, sink by sink.

use vstd::prelude::*;

use crate::error::PnrError;
use crate::model::{CellPinId, NetId, PipId, WireId};
use crate::net_growth::NetRouter;
use crate::net_router::{sink_order, UNROUTED_ARRIVAL_PS};
use crate::ordered::OrderedKey;
use crate::placement::pin_wire;
use crate::route::{arcs_sorted, NetRoute, RouteArc};
use crate::routing_costs::{sink_minimum, tree_pip_delay};
use crate::search::{MetResources, RouteQuery, RouteSearch};
use crate::text::decimal_text;
use crate::tree::{ParentHop, RouteTree};

verus! {

/// Tree, arrivals and arcs of a net under construction.
pub struct GrowthPoint {
    /// Wires and how each is entered.
    pub tree: RouteTree,
    /// Arrival at each wire of the tree.
    pub arrivals: Seq<u64>,
    /// Arcs built so far.
    pub arcs: Seq<RouteArc>,
    /// Full resources that the searches met.
    pub met: MetResources,
}

/// Arrivals with one more: the least one counts.
pub open spec fn noted(arrivals: Seq<u64>, wire: WireId, arrival_ps: u64) -> Seq<u64> {
    if arrivals[wire.0 as int] == UNROUTED_ARRIVAL_PS || arrival_ps < arrivals[wire.0 as int] {
        arrivals.update(wire.0 as int, arrival_ps)
    } else {
        arrivals
    }
}

/// A later arrival.
pub open spec fn delayed(arrival_ps: u64, delay_ps: u32) -> u64 {
    if arrival_ps + delay_ps > u64::MAX {
        u64::MAX
    } else {
        (arrival_ps + delay_ps) as u64
    }
}

/// Wires of the tree with the last part of a path, listed from its goal back.
pub open spec fn hung_wires(
    tree: Set<WireId>,
    wires: Seq<WireId>,
    count: int,
    index: int,
) -> Set<WireId>
    decreases count - index,
{
    if index >= count {
        tree
    } else {
        hung_wires(tree, wires, count, index + 1).insert(wires[index])
    }
}

/// Parents of the tree with the last part of a path.
pub open spec fn hung_parents(
    parent: Map<WireId, ParentHop>,
    wires: Seq<WireId>,
    pips: Seq<PipId>,
    index: int,
) -> Map<WireId, ParentHop>
    decreases pips.len() - index,
{
    if index >= pips.len() {
        parent
    } else {
        hung_parents(parent, wires, pips, index + 1).insert(
            wires[index],
            ParentHop { wire: wires[index + 1], pip: pips[index] },
        )
    }
}

/// Wires and parents of a tree with the first steps of an arc.
pub open spec fn laid(
    tree: (Set<WireId>, Map<WireId, ParentHop>),
    arc: RouteArc,
    steps: int,
) -> (Set<WireId>, Map<WireId, ParentHop>)
    decreases steps,
{
    if steps <= 0 {
        tree
    } else {
        let rest = laid(tree, arc, steps - 1);
        if rest.0.contains(arc.wires@[steps]) {
            rest
        } else {
            (
                rest.0.insert(arc.wires@[steps]),
                rest.1.insert(
                    arc.wires@[steps],
                    ParentHop { wire: arc.wires@[steps - 1], pip: arc.pips@[steps - 1] },
                ),
            )
        }
    }
}

/// Wires and parents of the first fixed arcs.
pub open spec fn fixed_tree(driver: WireId, arcs: Seq<RouteArc>, count: int) -> (
    Set<WireId>,
    Map<WireId, ParentHop>,
)
    decreases count,
{
    if count <= 0 {
        (set![driver], Map::empty())
    } else {
        laid(
            fixed_tree(driver, arcs, count - 1),
            arcs[count - 1],
            arcs[count - 1].pips@.len() as int,
        )
    }
}

impl<'a> NetRouter<'a> {
    /// Arrivals with those of the last part of a path, and the last of them.
    pub open spec fn path_arrivals(
        &self,
        arrivals: Seq<u64>,
        wires: Seq<WireId>,
        pips: Seq<PipId>,
        minimum_arrival_ps: u64,
        index: int,
    ) -> (Seq<u64>, u64)
        decreases pips.len() - index,
    {
        if index >= pips.len() {
            let start = wires[pips.len() as int];
            match self.costs {
                Some(_) => (arrivals, arrivals[start.0 as int]),
                None => (arrivals.update(start.0 as int, 0), 0),
            }
        } else {
            let rest = self.path_arrivals(arrivals, wires, pips, minimum_arrival_ps, index + 1);
            match self.costs {
                Some(costs) => {
                    let arrival_ps = delayed(
                        rest.1,
                        tree_pip_delay(costs, pips[index], minimum_arrival_ps),
                    );
                    (noted(rest.0, wires[index], arrival_ps), arrival_ps)
                },
                None => (rest.0.update(wires[index].0 as int, 0), 0),
            }
        }
    }

    /// Arrivals with those of the first steps of a fixed arc, and the last of them.
    pub open spec fn arc_arrivals(&self, arrivals: Seq<u64>, arc: RouteArc, steps: int) -> (
        Seq<u64>,
        u64,
    )
        decreases steps,
    {
        if steps <= 0 {
            (arrivals, 0)
        } else {
            let rest = self.arc_arrivals(arrivals, arc, steps - 1);
            let delay_ps = match self.costs {
                Some(costs) => costs.pip_delays_ps@[arc.pips@[steps - 1].0 as int],
                None => 0u32,
            };
            let arrival_ps = delayed(rest.1, delay_ps);
            (noted(rest.0, arc.wires@[steps], arrival_ps), arrival_ps)
        }
    }

    /// Arrivals of the first fixed arcs.
    pub open spec fn fixed_arrivals(
        &self,
        driver: WireId,
        arcs: Seq<RouteArc>,
        count: int,
    ) -> Seq<u64>
        decreases count,
    {
        if count <= 0 {
            Seq::new(
                self.graph.device.wires@.len(),
                |w: int| UNROUTED_ARRIVAL_PS,
            ).update(driver.0 as int, 0)
        } else {
            self.arc_arrivals(
                self.fixed_arrivals(driver, arcs, count - 1),
                arcs[count - 1],
                arcs[count - 1].pips@.len() as int,
            ).0
        }
    }

    /// The fixed arcs alone.
    pub open spec fn is_planted(
        &self,
        driver: WireId,
        fixed: Seq<RouteArc>,
        point: GrowthPoint,
    ) -> bool {
        let count = fixed.len() as int;
        &&& point.tree.driver == driver
        &&& point.tree.wires.wf()
        &&& (point.tree.wires@, point.tree.parent@) == fixed_tree(driver, fixed, count)
        &&& point.arrivals == self.fixed_arrivals(driver, fixed, count)
        &&& point.arcs.len() == count
        &&& forall|i: int| 0 <= i < count ==> (#[trigger] point.arcs[i]).same(&fixed[i])
    }

    /// The arcs with one more, which follows the tree to the goal.
    pub open spec fn adds_arc(
        &self,
        tree: RouteTree,
        before: Seq<RouteArc>,
        after: Seq<RouteArc>,
        sink: CellPinId,
        goal: WireId,
    ) -> bool {
        &&& after.len() == before.len() + 1
        &&& after.take(before.len() as int) == before
        &&& after.last().sink == Some(sink)
        &&& after.last().is_path(self.graph.device, tree.driver)
        &&& after.last().wires@.last() == goal
        &&& tree.follows(after.last().wires@, after.last().pips@)
    }

    /// The path hangs on the tree.
    pub open spec fn hangs_path(
        &self,
        before: GrowthPoint,
        wires: Seq<WireId>,
        pips: Seq<PipId>,
        minimum_arrival_ps: u64,
        after: GrowthPoint,
    ) -> bool {
        &&& after.tree.driver == before.tree.driver
        &&& after.tree.wires.wf()
        &&& after.tree.wires@ == hung_wires(before.tree.wires@, wires, pips.len() as int, 0)
        &&& after.tree.parent@ == hung_parents(before.tree.parent@, wires, pips, 0)
        &&& after.arrivals == self.path_arrivals(
            before.arrivals,
            wires,
            pips,
            minimum_arrival_ps,
            0,
        ).0
    }

    /// The search found the path from the tree to the goal.
    pub open spec fn finds_path(
        &self,
        net: NetId,
        sink: CellPinId,
        goal: WireId,
        estimates: RouteSearch,
        before: GrowthPoint,
        path: (Vec<WireId>, Vec<PipId>),
        met: MetResources,
    ) -> bool {
        exists|search: RouteSearch, query: RouteQuery<'_>|
            {
                &&& search.same_estimates(&estimates)
                &&& #[trigger] self.asks(query, net, sink, goal, before.arrivals)
                &&& #[trigger] self.sink_answer(
                    search,
                    query,
                    &before.tree.wires,
                    sink_minimum(self.costs, net, sink),
                    Some(path),
                    met,
                )
            }
    }

    /// One sink joins: it was reached already, the tree holds its wire, or the
    /// search finds a path from the tree.
    pub open spec fn joins_sink(
        &self,
        net: NetId,
        sink: CellPinId,
        estimates: RouteSearch,
        before: GrowthPoint,
        after: GrowthPoint,
    ) -> bool {
        pin_wire(self.graph, self.placement, sink) matches Some(goal) && if exists|i: int|
            0 <= i < before.arcs.len() && (#[trigger] before.arcs[i]).sink == Some(sink) {
            &&& before.arrivals[goal.0 as int] >= sink_minimum(self.costs, net, sink)
            &&& after == before
        } else if before.tree.wires@.contains(goal) {
            &&& before.arrivals[goal.0 as int] >= sink_minimum(self.costs, net, sink)
            &&& after.tree == before.tree
            &&& after.arrivals == before.arrivals
            &&& after.met == before.met
            &&& self.adds_arc(before.tree, before.arcs, after.arcs, sink, goal)
        } else {
            exists|path: (Vec<WireId>, Vec<PipId>)|
                {
                    &&& #[trigger] self.finds_path(net, sink, goal, estimates, before, path, after.met)
                    &&& before.met.within(after.met)
                    &&& self.hangs_path(
                        before,
                        path.0@,
                        path.1@,
                        sink_minimum(self.costs, net, sink),
                        after,
                    )
                    &&& self.adds_arc(after.tree, before.arcs, after.arcs, sink, goal)
                }
        }
    }

    /// The search finds no path from the tree to the goal.
    pub open spec fn finds_none(
        &self,
        net: NetId,
        sink: CellPinId,
        goal: WireId,
        estimates: RouteSearch,
        before: GrowthPoint,
        met: MetResources,
    ) -> bool {
        exists|search: RouteSearch, query: RouteQuery<'_>|
            {
                &&& search.same_estimates(&estimates)
                &&& #[trigger] self.asks(query, net, sink, goal, before.arrivals)
                &&& #[trigger] self.sink_answer(
                    search,
                    query,
                    &before.tree.wires,
                    sink_minimum(self.costs, net, sink),
                    None,
                    met,
                )
            }
    }

    /// Name of a pin with that of its cell.
    pub open spec fn pin_text(&self, pin: CellPinId) -> Seq<char> {
        let record = self.graph.design.pins@[pin.0 as int];
        self.graph.design.cells@[record.cell.0 as int].name@ + "."@ + record.name@
    }

    /// Why a sink cannot join: its cell or its pin has no place, the tree
    /// arrives too early, or the search finds no path.
    pub open spec fn fails_at(
        &self,
        net: NetId,
        sink: CellPinId,
        estimates: RouteSearch,
        before: GrowthPoint,
        error: PnrError,
        met: MetResources,
    ) -> bool {
        let design = self.graph.design;
        let cell = design.pins@[sink.0 as int].cell;
        match error {
            PnrError::MissingPlacement { cell: missing } => missing == cell
                && self.placement.bel_of(cell) is None,
            PnrError::Model(_) => self.placement.bel_of(cell) is Some && pin_wire(
                self.graph,
                self.placement,
                sink,
            ) is None,
            PnrError::Unroutable { net: name, driver: from, sink: to } => {
                &&& name@ == design.nets@[net.0 as int].name@
                &&& pin_wire(self.graph, self.placement, sink) matches Some(goal)
                    && self.misses_goal(net, sink, goal, estimates, before, from@, to@, met)
            },
            _ => false,
        }
    }

    /// Why the tree does not serve a sink whose wire is known.
    pub open spec fn misses_goal(
        &self,
        net: NetId,
        sink: CellPinId,
        goal: WireId,
        estimates: RouteSearch,
        before: GrowthPoint,
        from: Seq<char>,
        to: Seq<char>,
        met: MetResources,
    ) -> bool {
        let wires = self.graph.device.wires@;
        let minimum_arrival_ps = sink_minimum(self.costs, net, sink);
        if before.tree.wires@.contains(goal) || exists|i: int|
            0 <= i < before.arcs.len() && (#[trigger] before.arcs[i]).sink == Some(sink) {
            &&& before.arrivals[goal.0 as int] < minimum_arrival_ps
            &&& from == "hold-constrained tree via "@ + wires[before.tree.driver.0 as int].name@
            &&& to == self.pin_text(sink) + " requires at least "@ + decimal_text(
                minimum_arrival_ps as nat,
            ) + " ps"@
        } else {
            &&& self.finds_none(net, sink, goal, estimates, before, met)
            &&& from == self.pin_text(self.graph.design.nets@[net.0 as int].driver) + " via "@
                + wires[before.tree.driver.0 as int].name@
            &&& to == self.pin_text(sink) + " via "@ + wires[goal.0 as int].name@
        }
    }

    /// Why the driver has no wire.
    pub open spec fn lacks_driver(&self, net: NetId, error: PnrError) -> bool {
        let pin = self.graph.design.nets@[net.0 as int].driver;
        let cell = self.graph.design.pins@[pin.0 as int].cell;
        match error {
            PnrError::MissingPlacement { cell: missing } => missing == cell
                && self.placement.bel_of(cell) is None,
            PnrError::Model(_) => self.placement.bel_of(cell) is Some && self.driver_wire(
                net,
            ) is None,
            _ => false,
        }
    }

    /// The growth from the fixed arcs ends before every sink has joined; what
    /// leaves no room for a hop of its searches was met.
    pub open spec fn strands(
        &self,
        net: NetId,
        fixed: Seq<RouteArc>,
        estimates: RouteSearch,
        error: PnrError,
        met: MetResources,
    ) -> bool {
        ||| self.lacks_driver(net, error)
        ||| exists|order: Seq<CellPinId>, chain: Seq<GrowthPoint>|
            {
                &&& #[trigger] self.is_growth(net, fixed, estimates, order, chain)
                &&& chain.len() <= order.len()
                &&& chain.last().met.within(met)
                &&& self.fails_at(net, order[chain.len() - 1], estimates, chain.last(), error, met)
            }
    }

    /// Distance of a sink from the driver.
    pub open spec fn sink_distance(&self, net: NetId, sink: CellPinId) -> u64 {
        let driver = self.graph.design.pins@[self.graph.design.nets@[net.0 as int].driver.0 as int].cell;
        match (
            self.placement.bel_of(self.graph.design.pins@[sink.0 as int].cell),
            self.placement.bel_of(driver),
        ) {
            (Some(bel), Some(from)) => self.graph.device.bels@[bel.0 as int].point.distance(
                self.graph.device.bels@[from.0 as int].point,
            ) as u64,
            _ => u64::MAX,
        }
    }

    /// The sinks of the net, the most critical first and the nearest of equals
    /// before the others.
    pub open spec fn is_sink_sequence(&self, net: NetId, order: Seq<CellPinId>) -> bool {
        let sinks = self.graph.design.nets@[net.0 as int].sinks@;
        &&& order.to_multiset() == sinks.to_multiset()
        &&& order.len() == sinks.len()
        &&& exists|distances: Map<CellPinId, u64>| #[trigger]
            self.orders_sinks(net, distances, order)
    }

    /// The sinks are in order by criticality, minimum delay and distance.
    pub open spec fn orders_sinks(
        &self,
        net: NetId,
        distances: Map<CellPinId, u64>,
        order: Seq<CellPinId>,
    ) -> bool {
        let sinks = self.graph.design.nets@[net.0 as int].sinks@;
        &&& forall|k: int|
            0 <= k < sinks.len() ==> distances[#[trigger] sinks[k]] == self.sink_distance(
                net,
                sinks[k],
            )
        &&& forall|i: int, j: int|
            0 <= i < j < order.len() ==> sink_order(
                net,
                self.costs,
                distances,
                #[trigger] order[i],
            ).rank() <= sink_order(net, self.costs, distances, #[trigger] order[j]).rank()
    }

    /// One step of the growth.
    pub open spec fn is_growth_step(
        &self,
        net: NetId,
        estimates: RouteSearch,
        order: Seq<CellPinId>,
        chain: Seq<GrowthPoint>,
        at: int,
    ) -> bool {
        self.joins_sink(net, order[at], estimates, chain[at], chain[at + 1])
    }

    /// The growth so far.
    pub open spec fn is_growth(
        &self,
        net: NetId,
        fixed: Seq<RouteArc>,
        estimates: RouteSearch,
        order: Seq<CellPinId>,
        chain: Seq<GrowthPoint>,
    ) -> bool {
        &&& self.driver_wire(net) is Some
        &&& self.is_sink_sequence(net, order)
        &&& 0 < chain.len() <= order.len() + 1
        &&& self.is_planted(self.driver_wire(net)->0, fixed, chain[0])
        &&& forall|i: int|
            0 <= i < chain.len() - 1 ==> #[trigger] self.is_growth_step(
                net,
                estimates,
                order,
                chain,
                i,
            )
    }

    /// The route grew from the fixed arcs, sink by sink, each by the path that
    /// the search finds; what leaves no room for a hop of the searches was met.
    pub open spec fn grows(
        &self,
        net: NetId,
        fixed: Seq<RouteArc>,
        estimates: RouteSearch,
        route: NetRoute,
        met: MetResources,
    ) -> bool {
        exists|order: Seq<CellPinId>, chain: Seq<GrowthPoint>|
            {
                &&& #[trigger] self.is_growth(net, fixed, estimates, order, chain)
                &&& chain.len() == order.len() + 1
                &&& route.net == net
                &&& route.is_fresh()
                &&& arcs_sorted(route.arcs@)
                &&& route.arcs@.to_multiset() == chain.last().arcs.to_multiset()
                &&& chain.last().met == met
            }
    }

    /// Only the estimates of the search matter.
    pub proof fn lemma_same_estimates(
        &self,
        net: NetId,
        sink: CellPinId,
        a: RouteSearch,
        b: RouteSearch,
        before: GrowthPoint,
        after: GrowthPoint,
    )
        requires
            a.same_estimates(&b),
            self.joins_sink(net, sink, a, before, after),
        ensures
            self.joins_sink(net, sink, b, before, after),
    {
        let goal = pin_wire(self.graph, self.placement, sink)->0;
        if !(exists|i: int|
            0 <= i < before.arcs.len() && (#[trigger] before.arcs[i]).sink == Some(sink))
            && !before.tree.wires@.contains(goal) {
            let path = choose|path: (Vec<WireId>, Vec<PipId>)|
                {
                    &&& #[trigger] self.finds_path(net, sink, goal, a, before, path, after.met)
                    &&& before.met.within(after.met)
                    &&& self.hangs_path(
                        before,
                        path.0@,
                        path.1@,
                        sink_minimum(self.costs, net, sink),
                        after,
                    )
                    &&& self.adds_arc(after.tree, before.arcs, after.arcs, sink, goal)
                };
            assert(self.finds_path(net, sink, goal, b, before, path, after.met));
        }
    }

    /// Only the estimates of the search matter where a sink fails.
    pub proof fn lemma_same_failure(
        &self,
        net: NetId,
        sink: CellPinId,
        a: RouteSearch,
        b: RouteSearch,
        before: GrowthPoint,
        error: PnrError,
        met: MetResources,
    )
        requires
            a.same_estimates(&b),
            self.fails_at(net, sink, a, before, error, met),
        ensures
            self.fails_at(net, sink, b, before, error, met),
    {
        if error is Unroutable {
            let goal = pin_wire(self.graph, self.placement, sink)->0;
            if self.finds_none(net, sink, goal, a, before, met) {
                let (search, query) = choose|search: RouteSearch, query: RouteQuery<'_>|
                    {
                        &&& search.same_estimates(&a)
                        &&& #[trigger] self.asks(query, net, sink, goal, before.arrivals)
                        &&& #[trigger] self.sink_answer(
                            search,
                            query,
                            &before.tree.wires,
                            sink_minimum(self.costs, net, sink),
                            None,
                            met,
                        )
                    };
                assert(search.same_estimates(&b));
                assert(self.finds_none(net, sink, goal, b, before, met));
            }
        }
    }

    /// One more sink makes a longer growth.
    pub proof fn lemma_growth_step(
        &self,
        net: NetId,
        fixed: Seq<RouteArc>,
        estimates: RouteSearch,
        order: Seq<CellPinId>,
        chain: Seq<GrowthPoint>,
        next: GrowthPoint,
    )
        requires
            self.is_growth(net, fixed, estimates, order, chain),
            chain.len() <= order.len(),
            self.joins_sink(net, order[chain.len() - 1], estimates, chain.last(), next),
        ensures
            self.is_growth(net, fixed, estimates, order, chain.push(next)),
    {
        let longer = chain.push(next);
        assert forall|i: int| 0 <= i < longer.len() - 1 implies #[trigger] self.is_growth_step(
            net,
            estimates,
            order,
            longer,
            i,
        ) by {
            if i < chain.len() - 1 {
                assert(self.is_growth_step(net, estimates, order, chain, i));
                assert(longer[i] == chain[i] && longer[i + 1] == chain[i + 1]);
            } else {
                assert(longer[i] == chain.last());
            }
        }
    }
}

} // verus!
