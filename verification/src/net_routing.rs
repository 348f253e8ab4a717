//! Routing of one net: the fixed part first, then sink after sink.

use vstd::prelude::*;
use vstd::string::*;

use crate::device::UnifiedGraph;
use crate::error::PnrError;
use crate::growth_model::{fixed_tree, hung_parents, hung_wires, laid, noted, GrowthPoint};
use crate::model::{CellPinId, NetId, PipId, WireId};
use crate::net_growth::NetRouter;
use crate::net_router::{ordered_sinks, UNROUTED_ARRIVAL_PS};
use crate::ordered::{lemma_counterpart, OrderedMap, OrderedSet};
use crate::placement::{pin_wire, Placement};
use crate::route::{arcs_sorted, NetRoute, RouteArc};
use crate::routing_costs::{routed_tree_pip_delay, routing_sink_minimum, sink_minimum};
use crate::search::{HardRoutingBlockers, MetResources, RouteQuery, RouteSearch};
use crate::text::{append_decimal, decimal_text};
use crate::tree::{ParentHop, RouteTree};

verus! {

/// If two hops of some arcs enter one wire, they are the same hop.
pub open spec fn hops_agree(arcs: Seq<RouteArc>, a: int, i: int, b: int, j: int) -> bool {
    (0 <= a < arcs.len() && 0 <= b < arcs.len() && 0 <= i < arcs[a].pips@.len() && 0 <= j
        < arcs[b].pips@.len() && arcs[a].wires@[i + 1] == arcs[b].wires@[j + 1]) ==> (
    arcs[a].wires@[i] == arcs[b].wires@[j] && arcs[a].pips@[i] == arcs[b].pips@[j])
}

/// Two arcs that enter one wire enter it by the same hop.
pub open spec fn consistent(arcs: Seq<RouteArc>) -> bool {
    forall|a: int, i: int, b: int, j: int| #[trigger] hops_agree(arcs, a, i, b, j)
}

/// No two arcs lead to one sink.
pub open spec fn distinct_sinks(arcs: Seq<RouteArc>) -> bool {
    forall|a: int, b: int|
        0 <= a < b < arcs.len() && (#[trigger] arcs[a]).sink is Some ==> arcs[a].sink != (
        #[trigger] arcs[b]).sink
}

/// Some arc takes the hop.
pub open spec fn takes_hop(arcs: Seq<RouteArc>, from: WireId, pip: PipId, to: WireId) -> bool {
    exists|a: int, i: int|
        #![trigger arcs[a].pips@[i]]
        0 <= a < arcs.len() && 0 <= i < arcs[a].pips@.len() && arcs[a].pips@[i] == pip
            && arcs[a].wires@[i] == from && arcs[a].wires@[i + 1] == to
}

/// Some arc has the sink, wires, and PIPs of the given one.
pub open spec fn holds_arc(arcs: Seq<RouteArc>, arc: RouteArc) -> bool {
    exists|i: int| 0 <= i < arcs.len() && (#[trigger] arcs[i]).same(&arc)
}

/// Every arrival is that of a wire outside any tree.
pub open spec fn all_unrouted(arrivals: Seq<u64>) -> bool {
    forall|w: int| 0 <= w < arrivals.len() ==> #[trigger] arrivals[w] == UNROUTED_ARRIVAL_PS
}

/// Wire of the driver of a net.
pub open spec fn driver_wire(
    graph: UnifiedGraph<'_>,
    placement: &Placement,
    net: NetId,
) -> Option<WireId> {
    pin_wire(graph, placement, graph.design.nets@[net.0 as int].driver)
}

/// The arc is a path of the device that ends where its sink stands.
pub open spec fn arc_fits(
    graph: UnifiedGraph<'_>,
    placement: &Placement,
    net: NetId,
    driver: WireId,
    arc: RouteArc,
) -> bool {
    &&& arc.is_path(graph.device, driver)
    &&& arc.sink matches Some(sink) ==> {
        &&& graph.design.nets@[net.0 as int].sinks@.contains(sink)
        &&& pin_wire(graph, placement, sink) == Some(arc.wires@.last())
    }
}

/// Every arc fits, and no two lead to one sink.
pub open spec fn arcs_fit(
    graph: UnifiedGraph<'_>,
    placement: &Placement,
    net: NetId,
    driver: WireId,
    arcs: Seq<RouteArc>,
) -> bool {
    &&& forall|i: int|
        0 <= i < arcs.len() ==> arc_fits(graph, placement, net, driver, #[trigger] arcs[i])
    &&& distinct_sinks(arcs)
}

impl<'a> NetRouter<'a> {
    /// Wire of the driver of a net.
    pub open spec fn driver_wire(&self, net: NetId) -> Option<WireId> {
        driver_wire(self.graph, self.placement, net)
    }

    /// The driver and every sink of the net stand on wires.
    pub open spec fn is_bound(&self, net: NetId) -> bool {
        let record = self.graph.design.nets@[net.0 as int];
        &&& self.driver_wire(net) is Some
        &&& forall|k: int|
            0 <= k < record.sinks@.len() ==> pin_wire(
                self.graph,
                self.placement,
                #[trigger] record.sinks@[k],
            ) is Some
    }

    /// The arc is a path of the device that ends where its sink stands.
    pub open spec fn arc_fits(&self, net: NetId, driver: WireId, arc: RouteArc) -> bool {
        arc_fits(self.graph, self.placement, net, driver, arc)
    }

    /// Every arc fits, and no two lead to one sink.
    pub open spec fn arcs_fit(&self, net: NetId, driver: WireId, arcs: Seq<RouteArc>) -> bool {
        arcs_fit(self.graph, self.placement, net, driver, arcs)
    }

    /// Arcs of the immutable part of a net.
    pub open spec fn fixed_arcs(fixed: Option<&NetRoute>) -> Seq<RouteArc> {
        match fixed {
            Some(route) => route.arcs@,
            None => Seq::empty(),
        }
    }

    /// The immutable part of the net fits the placement.
    pub open spec fn fixed_fits(&self, net: NetId, fixed: Option<&NetRoute>) -> bool {
        self.driver_wire(net) matches Some(driver) ==> self.arcs_fit(
            net,
            driver,
            Self::fixed_arcs(fixed),
        )
    }

    /// The hop is one of the immutable part, or an open one.
    pub open spec fn hop_granted(
        &self,
        fixed: Seq<RouteArc>,
        from: WireId,
        pip: PipId,
        to: WireId,
    ) -> bool {
        takes_hop(fixed, from, pip, to) || self.open_hop(from, pip, to)
    }

    /// The route serves the net: one arc to every sink, the immutable part kept,
    /// and nothing taken that is neither immutable nor open.
    pub open spec fn serves(&self, net: NetId, fixed: Seq<RouteArc>, route: NetRoute) -> bool {
        let record = self.graph.design.nets@[net.0 as int];
        &&& self.is_bound(net)
        &&& route.net == net
        &&& route.is_fresh()
        &&& arcs_sorted(route.arcs@)
        &&& self.arcs_fit(net, self.driver_wire(net)->0, route.arcs@)
        &&& forall|k: int|
            0 <= k < record.sinks@.len() ==> route.reaches(#[trigger] record.sinks@[k])
        &&& forall|f: int| 0 <= f < fixed.len() ==> holds_arc(route.arcs@, #[trigger] fixed[f])
        &&& forall|i: int|
            0 <= i < route.arcs@.len() && (#[trigger] route.arcs@[i]).sink is None ==> holds_arc(
                fixed,
                route.arcs@[i],
            )
        &&& forall|i: int, k: int|
            #![trigger route.arcs@[i].pips@[k]]
            0 <= i < route.arcs@.len() && 0 <= k < route.arcs@[i].pips@.len() ==> self.hop_granted(
                fixed,
                route.arcs@[i].wires@[k],
                route.arcs@[i].pips@[k],
                route.arcs@[i].wires@[k + 1],
            )
        &&& consistent(fixed) ==> consistent(route.arcs@)
    }

    /// Why a net could not be routed.
    pub open spec fn net_failure(&self, net: NetId, error: PnrError) -> bool {
        let record = self.graph.design.nets@[net.0 as int];
        match error {
            PnrError::MissingPlacement { cell } => {
                &&& self.placement.bel_of(cell) is None
                &&& self.graph.design.pins@[record.driver.0 as int].cell == cell || exists|k: int|
                    0 <= k < record.sinks@.len() && self.graph.design.pins@[(
                    #[trigger] record.sinks@[k]).0 as int].cell == cell
            },
            PnrError::Model(_) => !self.is_bound(net),
            PnrError::Unroutable { net: name, .. } => {
                &&& name@ == record.name@
                &&& self.driver_wire(net) is Some
                &&& exists|k: int|
                    {
                        &&& 0 <= k < record.sinks@.len()
                        &&& pin_wire(self.graph, self.placement, #[trigger] record.sinks@[k]) is Some
                        &&& sink_minimum(self.costs, net, record.sinks@[k]) != 0 || !self.connected(
                            self.driver_wire(net)->0,
                            pin_wire(self.graph, self.placement, record.sinks@[k])->0,
                        )
                    }
            },
            _ => false,
        }
    }
}

/// Arcs that follow one tree enter each wire by the same hop.
pub proof fn lemma_follows_consistent(tree: &RouteTree, arcs: Seq<RouteArc>)
    requires
        forall|i: int|
            0 <= i < arcs.len() ==> tree.follows((#[trigger] arcs[i]).wires@, arcs[i].pips@),
    ensures
        consistent(arcs),
{
    assert forall|a: int, i: int, b: int, j: int| #[trigger] hops_agree(arcs, a, i, b, j) by {
        if 0 <= a < arcs.len() && 0 <= b < arcs.len() && 0 <= i < arcs[a].pips@.len() && 0 <= j
            < arcs[b].pips@.len() && arcs[a].wires@[i + 1] == arcs[b].wires@[j + 1] {
            assert(tree.follows(arcs[a].wires@, arcs[a].pips@));
            assert(tree.follows(arcs[b].wires@, arcs[b].pips@));
            let p = arcs[a].pips@[i];
            let q = arcs[b].pips@[j];
            let w = arcs[a].wires@[i + 1];
            assert(tree.parent@[w] == (ParentHop { wire: arcs[a].wires@[i], pip: p }));
            assert(tree.parent@[w] == (ParentHop { wire: arcs[b].wires@[j], pip: q }));
        }
    }
}

/// The tree and the arcs of a net under construction.
struct NetGrowth {
    tree: RouteTree,
    arcs: Vec<RouteArc>,
    routed: OrderedSet<CellPinId>,
}

impl NetGrowth {
    /// The arc runs over the tree.
    spec fn on_tree(&self, arc: RouteArc) -> bool {
        forall|k: int|
            0 <= k < arc.wires@.len() ==> self.tree.wires@.contains(#[trigger] arc.wires@[k])
    }

    /// The growth with its arrivals.
    spec fn point(&self, arrivals: Seq<u64>, met: MetResources) -> GrowthPoint {
        GrowthPoint { tree: self.tree, arrivals, arcs: self.arcs@, met }
    }

    /// The tree holds the fixed arcs and the arcs built on them.
    spec fn wf(
        &self,
        router: NetRouter<'_>,
        net: NetId,
        fixed: Seq<RouteArc>,
        arrivals: Seq<u64>,
    ) -> bool {
        let device = router.graph.device;
        &&& router.driver_wire(net) == Some(self.tree.driver)
        &&& self.tree.wf(device)
        &&& forall|w: WireId| #[trigger]
            self.tree.wires@.contains(w) ==> w.0 < device.wires@.len()
        &&& forall|w: WireId|
            self.tree.parent@.contains_key(w) ==> #[trigger] router.hop_granted(
                fixed,
                self.tree.parent@[w].wire,
                self.tree.parent@[w].pip,
                w,
            )
        &&& arrivals.len() == device.wires@.len()
        &&& forall|w: int|
            0 <= w < arrivals.len() && #[trigger] arrivals[w] != UNROUTED_ARRIVAL_PS
                ==> self.tree.wires@.contains(WireId(w as usize))
        &&& self.routed.wf()
        &&& router.arcs_fit(net, self.tree.driver, self.arcs@)
        &&& fixed.len() <= self.arcs@.len()
        &&& forall|i: int| 0 <= i < fixed.len() ==> (#[trigger] self.arcs@[i]).same(&fixed[i])
        &&& forall|i: int| 0 <= i < self.arcs@.len() ==> self.on_tree(#[trigger] self.arcs@[i])
        &&& forall|i: int|
            fixed.len() <= i < self.arcs@.len() ==> (#[trigger] self.arcs@[i]).sink is Some
                && self.tree.follows(self.arcs@[i].wires@, self.arcs@[i].pips@)
        &&& consistent(fixed) ==> forall|i: int|
            0 <= i < self.arcs@.len() ==> self.tree.follows(
                (#[trigger] self.arcs@[i]).wires@,
                self.arcs@[i].pips@,
            )
        &&& forall|s: CellPinId| #[trigger]
            self.routed@.contains(s) <==> exists|i: int|
                0 <= i < self.arcs@.len() && (#[trigger] self.arcs@[i]).sink == Some(s)
    }

    /// Hangs a found route on the tree and notes its arrivals.
    fn extend(
        &mut self,
        router: &NetRouter<'_>,
        net: NetId,
        sink: CellPinId,
        goal: WireId,
        minimum_arrival_ps: u64,
        path: (Vec<WireId>, Vec<PipId>),
        arrivals: &mut Vec<u64>,
        Ghost(fixed): Ghost<Seq<RouteArc>>,
        Ghost(known): Ghost<MetResources>,
        Ghost(met): Ghost<MetResources>,
    )
        requires
            router.wf(),
            net.0 < router.graph.design.nets@.len(),
            old(self).wf(*router, net, fixed, old(arrivals)@),
            router.extends(old(self).tree.wires@, goal, path.0@, path.1@),
            router.graph.design.nets@[net.0 as int].sinks@.contains(sink),
            pin_wire(router.graph, router.placement, sink) == Some(goal),
            !old(self).routed@.contains(sink),
        ensures
            final(self).wf(*router, net, fixed, final(arrivals)@),
            final(self).tree.driver == old(self).tree.driver,
            final(self).routed@ == old(self).routed@.insert(sink),
            router.hangs_path(
                old(self).point(old(arrivals)@, known),
                path.0@,
                path.1@,
                minimum_arrival_ps,
                final(self).point(final(arrivals)@, met),
            ),
            router.adds_arc(
                final(self).tree,
                old(self).arcs@,
                final(self).arcs@,
                sink,
                goal,
            ),
    {
        let ghost before = *self;
        let ghost device = router.graph.device;
        let count: usize = path.1.len();
        let mut arrival_ps: u64 = 0;
        assert(path.0@[count as int] == path.0@.last());
        if router.costs.is_some() {
            arrival_ps = arrivals[path.0[count].0];
        } else {
            arrivals.set(path.0[count].0, 0);
        }
        let mut index: usize = count;
        while index > 0
            invariant
                index <= count,
                count == path.1@.len(),
                router.wf(),
                device == router.graph.device,
                router.extends(before.tree.wires@, goal, path.0@, path.1@),
                before.wf(*router, net, fixed, old(arrivals)@),
                self.arcs == before.arcs,
                self.routed == before.routed,
                self.tree.wf(device),
                self.tree.driver == before.tree.driver,
                self.tree.wires@.contains(path.0@[index as int]),
                self.tree.wires@ == hung_wires(
                    before.tree.wires@,
                    path.0@,
                    count as int,
                    index as int,
                ),
                self.tree.parent@ == hung_parents(
                    before.tree.parent@,
                    path.0@,
                    path.1@,
                    index as int,
                ),
                (arrivals@, arrival_ps) == router.path_arrivals(
                    old(arrivals)@,
                    path.0@,
                    path.1@,
                    minimum_arrival_ps,
                    index as int,
                ),
                before.tree.wires@.subset_of(self.tree.wires@),
                forall|w: WireId| #[trigger]
                    self.tree.wires@.contains(w) ==> w.0 < device.wires@.len(),
                forall|w: WireId| #[trigger]
                    self.tree.wires@.contains(w) ==> before.tree.wires@.contains(w) || exists|
                        k: int,
                    |
                        index <= k < count && path.0@[k] == w,
                forall|w: WireId| #[trigger]
                    before.tree.parent@.contains_key(w) ==> self.tree.parent@.contains_key(w)
                        && self.tree.parent@[w] == before.tree.parent@[w],
                forall|w: WireId|
                    self.tree.parent@.contains_key(w) ==> #[trigger] router.hop_granted(
                        fixed,
                        self.tree.parent@[w].wire,
                        self.tree.parent@[w].pip,
                        w,
                    ),
                arrivals@.len() == device.wires@.len(),
                forall|w: int|
                    0 <= w < arrivals@.len() && #[trigger] arrivals@[w] != UNROUTED_ARRIVAL_PS
                        ==> self.tree.wires@.contains(WireId(w as usize)),
            decreases index,
        {
            index = index - 1;
            let wire = path.0[index];
            let pip = path.1[index];
            let from = path.0[index + 1];
            let ghost earlier = *self;
            proof {
                assert(router.open_hop(
                    path.0@[index + 1],
                    path.1@[index as int],
                    path.0@[index as int],
                ));
                device.lemma_listed(from, pip, wire);
                if self.tree.wires@.contains(wire) {
                    let k = choose|k: int| index + 1 <= k < count && path.0@[k] == wire;
                    assert(path.0@[index as int] != path.0@[k]);
                }
                if self.tree.parent@.contains_key(wire) {
                    assert(self.tree.hangs(device, wire));
                }
            }
            self.tree.add(wire, ParentHop { wire: from, pip }, router.graph.device());
            match router.costs {
                Some(costs) => {
                    let delay_ps: u32 = routed_tree_pip_delay(costs, pip, minimum_arrival_ps);
                    arrival_ps = arrival_ps.saturating_add(delay_ps as u64);
                    let known: u64 = arrivals[wire.0];
                    if known == UNROUTED_ARRIVAL_PS || arrival_ps < known {
                        arrivals.set(wire.0, arrival_ps);
                    }
                },
                None => {
                    arrivals.set(wire.0, 0);
                },
            }
            proof {
                assert(WireId((wire.0 as int) as usize) == wire);
                assert forall|w: WireId| #[trigger] self.tree.wires@.contains(w) implies before.tree.wires@.contains(
                    w,
                ) || exists|k: int| index <= k < count && path.0@[k] == w by {
                    if w == wire {
                        assert(path.0@[index as int] == w);
                    } else {
                        assert(earlier.tree.wires@.contains(w));
                        if !before.tree.wires@.contains(w) {
                            let k = choose|k: int| index + 1 <= k < count && path.0@[k] == w;
                            assert(path.0@[k] == w);
                        }
                    }
                }
                assert forall|w: WireId| self.tree.parent@.contains_key(w) implies #[trigger] router.hop_granted(
                    fixed,
                    self.tree.parent@[w].wire,
                    self.tree.parent@[w].pip,
                    w,
                ) by {
                    if w != wire {
                        assert(earlier.tree.parent@.contains_key(w));
                        assert(router.hop_granted(
                            fixed,
                            earlier.tree.parent@[w].wire,
                            earlier.tree.parent@[w].pip,
                            w,
                        ));
                    }
                }
            }
        }
        if let Some(arc) = self.tree.arc_to(Some(sink), goal, router.graph.device()) {
            self.arcs.push(arc);
            self.routed.insert(sink);
            proof {
                self.lemma_arc_added(before, *router, net, fixed, sink, arrivals@, arc);
                assert(self.arcs@.take(before.arcs@.len() as int) =~= before.arcs@);
            }
        }
    }

    /// Adding an arc of the tree to a new sink keeps the growth sound.
    proof fn lemma_arc_added(
        &self,
        before: NetGrowth,
        router: NetRouter<'_>,
        net: NetId,
        fixed: Seq<RouteArc>,
        sink: CellPinId,
        arrivals: Seq<u64>,
        arc: RouteArc,
    )
        requires
            router.arcs_fit(net, before.tree.driver, before.arcs@),
            router.driver_wire(net) == Some(before.tree.driver),
            fixed.len() <= before.arcs@.len(),
            forall|i: int|
                0 <= i < fixed.len() ==> (#[trigger] before.arcs@[i]).same(&fixed[i]),
            forall|i: int|
                0 <= i < before.arcs@.len() ==> before.on_tree(#[trigger] before.arcs@[i]),
            forall|i: int|
                fixed.len() <= i < before.arcs@.len() ==> (#[trigger] before.arcs@[i]).sink is Some
                    && before.tree.follows(before.arcs@[i].wires@, before.arcs@[i].pips@),
            consistent(fixed) ==> forall|i: int|
                0 <= i < before.arcs@.len() ==> before.tree.follows(
                    (#[trigger] before.arcs@[i]).wires@,
                    before.arcs@[i].pips@,
                ),
            forall|s: CellPinId| #[trigger]
                before.routed@.contains(s) <==> exists|i: int|
                    0 <= i < before.arcs@.len() && (#[trigger] before.arcs@[i]).sink == Some(s),
            before.tree.wires@.subset_of(self.tree.wires@),
            forall|w: WireId| #[trigger]
                before.tree.parent@.contains_key(w) ==> self.tree.parent@.contains_key(w)
                    && self.tree.parent@[w] == before.tree.parent@[w],
            self.arcs@ == before.arcs@.push(arc),
            self.routed.wf(),
            self.routed@ == before.routed@.insert(sink),
            !before.routed@.contains(sink),
            self.tree.driver == before.tree.driver,
            self.tree.wf(router.graph.device),
            forall|w: WireId| #[trigger]
                self.tree.wires@.contains(w) ==> w.0 < router.graph.device.wires@.len(),
            forall|w: WireId|
                self.tree.parent@.contains_key(w) ==> #[trigger] router.hop_granted(
                    fixed,
                    self.tree.parent@[w].wire,
                    self.tree.parent@[w].pip,
                    w,
                ),
            arrivals.len() == router.graph.device.wires@.len(),
            forall|w: int|
                0 <= w < arrivals.len() && #[trigger] arrivals[w] != UNROUTED_ARRIVAL_PS
                    ==> self.tree.wires@.contains(WireId(w as usize)),
            arc.sink == Some(sink),
            router.arc_fits(net, self.tree.driver, arc),
            self.tree.follows(arc.wires@, arc.pips@),
            self.on_tree(arc),
        ensures
            self.wf(router, net, fixed, arrivals),
    {
        let last = before.arcs@.len() as int;
        assert forall|i: int| 0 <= i < self.arcs@.len() implies {
            &&& router.arc_fits(net, self.tree.driver, #[trigger] self.arcs@[i])
            &&& self.on_tree(self.arcs@[i])
        } by {
            if i < last {
                assert(router.arc_fits(net, before.tree.driver, before.arcs@[i]));
                assert(before.on_tree(before.arcs@[i]));
                assert forall|k: int| 0 <= k < self.arcs@[i].wires@.len() implies self.tree.wires@.contains(
                    #[trigger] self.arcs@[i].wires@[k],
                ) by {
                    assert(before.tree.wires@.contains(before.arcs@[i].wires@[k]));
                }
            }
        }
        assert forall|i: int| 0 <= i < last && before.tree.follows(
            before.arcs@[i].wires@,
            before.arcs@[i].pips@,
        ) implies self.tree.follows((#[trigger] self.arcs@[i]).wires@, self.arcs@[i].pips@) by {
            let known = before.arcs@[i];
            assert forall|k: int| 0 <= k < known.pips@.len() implies {
                &&& self.tree.parent@.contains_key(known.wires@[k + 1])
                &&& self.tree.parent@[known.wires@[k + 1]] == (ParentHop {
                    wire: known.wires@[k],
                    pip: #[trigger] known.pips@[k],
                })
            } by {
                assert(before.tree.follows(known.wires@, known.pips@));
                let pip = known.pips@[k];
                assert(before.tree.parent@.contains_key(known.wires@[k + 1]));
            }
        }
        assert forall|a: int, b: int|
            0 <= a < b < self.arcs@.len() && (#[trigger] self.arcs@[a]).sink
                is Some implies self.arcs@[a].sink != (#[trigger] self.arcs@[b]).sink by {
            if b == last {
                if self.arcs@[a].sink == Some(sink) {
                    assert(before.arcs@[a].sink == Some(sink));
                    assert(before.routed@.contains(sink));
                }
            } else {
                assert(before.arcs@[a].sink != before.arcs@[b].sink);
            }
        }
        assert forall|s: CellPinId| #[trigger] self.routed@.contains(s) <==> exists|i: int|
            0 <= i < self.arcs@.len() && (#[trigger] self.arcs@[i]).sink == Some(s) by {
            if before.routed@.contains(s) {
                let i = choose|i: int|
                    0 <= i < before.arcs@.len() && (#[trigger] before.arcs@[i]).sink == Some(s);
                assert(self.arcs@[i].sink == Some(s));
            }
            if s == sink {
                assert(self.arcs@[last].sink == Some(s));
            }
            if exists|i: int|
                0 <= i < self.arcs@.len() && (#[trigger] self.arcs@[i]).sink == Some(s) {
                let i = choose|i: int|
                    0 <= i < self.arcs@.len() && (#[trigger] self.arcs@[i]).sink == Some(s);
                if i < last {
                    assert(before.arcs@[i].sink == Some(s));
                }
            }
        }
        assert forall|i: int| fixed.len() <= i < self.arcs@.len() implies (
        #[trigger] self.arcs@[i]).sink is Some && self.tree.follows(
            self.arcs@[i].wires@,
            self.arcs@[i].pips@,
        ) by {
            if i < last {
                assert(before.arcs@[i].sink is Some);
            }
        }
        if consistent(fixed) {
            assert forall|i: int| 0 <= i < self.arcs@.len() implies self.tree.follows(
                (#[trigger] self.arcs@[i]).wires@,
                self.arcs@[i].pips@,
            ) by {
                if i < last {
                    assert(before.tree.follows(before.arcs@[i].wires@, before.arcs@[i].pips@));
                }
            }
        }
        assert forall|i: int| 0 <= i < fixed.len() implies (#[trigger] self.arcs@[i]).same(
            &fixed[i],
        ) by {
            assert(before.arcs@[i].same(&fixed[i]));
        }
    }

    /// Notes an arrival at a tree wire; the least one counts.
    fn note_arrival(&self, wire: WireId, arrival_ps: u64, arrivals: &mut Vec<u64>)
        requires
            wire.0 < old(arrivals)@.len(),
            self.tree.wires@.contains(wire),
            forall|w: int|
                0 <= w < old(arrivals)@.len() && #[trigger] old(arrivals)@[w]
                    != UNROUTED_ARRIVAL_PS ==> self.tree.wires@.contains(WireId(w as usize)),
        ensures
            final(arrivals)@.len() == old(arrivals)@.len(),
            final(arrivals)@ == noted(old(arrivals)@, wire, arrival_ps),
            forall|w: int|
                0 <= w < final(arrivals)@.len() && #[trigger] final(arrivals)@[w]
                    != UNROUTED_ARRIVAL_PS ==> self.tree.wires@.contains(WireId(w as usize)),
    {
        let known: u64 = arrivals[wire.0];
        if known == UNROUTED_ARRIVAL_PS || arrival_ps < known {
            arrivals.set(wire.0, arrival_ps);
        }
        assert(WireId((wire.0 as int) as usize) == wire);
    }

    /// Plants the immutable part of a net.
    fn plant(
        router: &NetRouter<'_>,
        net: NetId,
        fixed: Option<&NetRoute>,
        driver: WireId,
        arrivals: &mut Vec<u64>,
        Ghost(met): Ghost<MetResources>,
    ) -> (result: NetGrowth)
        requires
            router.wf(),
            net.0 < router.graph.design.nets@.len(),
            router.driver_wire(net) == Some(driver),
            driver.0 < router.graph.device.wires@.len(),
            router.fixed_fits(net, fixed),
            old(arrivals)@.len() == router.graph.device.wires@.len(),
            all_unrouted(old(arrivals)@),
        ensures
            result.wf(*router, net, NetRouter::fixed_arcs(fixed), final(arrivals)@),
            result.tree.driver == driver,
            router.is_planted(
                driver,
                NetRouter::fixed_arcs(fixed),
                result.point(final(arrivals)@, met),
            ),
    {
        let ghost device = router.graph.device;
        let ghost arcs = NetRouter::fixed_arcs(fixed);
        let mut growth = NetGrowth {
            tree: RouteTree::new(driver, router.graph.device()),
            arcs: Vec::new(),
            routed: OrderedSet::new(),
        };
        arrivals.set(driver.0, 0);
        assert(WireId((driver.0 as int) as usize) == driver);
        assert(arrivals@ =~= router.fixed_arrivals(driver, arcs, 0));
        let route = match fixed {
            None => return growth,
            Some(route) => route,
        };
        let mut index: usize = 0;
        while index < route.arcs.len()
            invariant
                index <= route.arcs@.len(),
                router.wf(),
                device == router.graph.device,
                arcs == route.arcs@,
                router.arcs_fit(net, driver, arcs),
                router.driver_wire(net) == Some(driver),
                growth.planted(*router, driver, arcs, arrivals@),
                (growth.tree.wires@, growth.tree.parent@) == fixed_tree(
                    driver,
                    arcs,
                    index as int,
                ),
                arrivals@ == router.fixed_arrivals(driver, arcs, index as int),
                growth.arcs@.len() == index,
                growth.routed.wf(),
                forall|i: int| 0 <= i < index ==> (#[trigger] growth.arcs@[i]).same(&arcs[i]),
                forall|i: int| 0 <= i < index ==> growth.on_tree(#[trigger] growth.arcs@[i]),
                forall|s: CellPinId| #[trigger]
                    growth.routed@.contains(s) <==> exists|i: int|
                        0 <= i < growth.arcs@.len() && (#[trigger] growth.arcs@[i]).sink == Some(s),
            decreases route.arcs@.len() - index,
        {
            let arc = &route.arcs[index];
            assert(router.arc_fits(net, driver, arcs[index as int]));
            let ghost before = growth;
            let mut step: usize = 0;
            let mut arrival_ps: u64 = 0;
            let ghost base = arrivals@;
            while step < arc.pips.len()
                invariant
                    step <= arc.pips@.len(),
                    (growth.tree.wires@, growth.tree.parent@) == laid(
                        (before.tree.wires@, before.tree.parent@),
                        *arc,
                        step as int,
                    ),
                    (arrivals@, arrival_ps) == router.arc_arrivals(base, *arc, step as int),
                    index < arcs.len(),
                    *arc == arcs[index as int],
                    router.wf(),
                    device == router.graph.device,
                    arc.is_path(device, driver),
                    growth.planted(*router, driver, arcs, arrivals@),
                    growth.arcs == before.arcs,
                    growth.routed == before.routed,
                    before.tree.wires@.subset_of(growth.tree.wires@),
                    forall|k: int|
                        0 <= k <= step ==> growth.tree.wires@.contains(#[trigger] arc.wires@[k]),
                decreases arc.pips@.len() - step,
            {
                let from = arc.wires[step];
                let wire = arc.wires[step + 1];
                let pip = arc.pips[step];
                let ghost earlier = growth;
                proof {
                    assert(device.leads(
                        arc.wires@[step as int],
                        arc.pips@[step as int],
                        arc.wires@[step + 1],
                    ));
                    device.lemma_listed(from, pip, wire);
                    assert(growth.tree.wires@.contains(arc.wires@[step as int]));
                    assert(arcs[index as int].pips@[step as int] == pip);
                    assert(takes_hop(arcs, from, pip, wire));
                }
                if !growth.tree.wires.contains(wire) {
                    growth.tree.add(wire, ParentHop { wire: from, pip }, router.graph.device());
                    proof {
                        assert forall|w: WireId| growth.tree.parent@.contains_key(w) implies
                        #[trigger] takes_hop(
                            arcs,
                            growth.tree.parent@[w].wire,
                            growth.tree.parent@[w].pip,
                            w,
                        ) by {
                            if w != wire {
                                assert(earlier.tree.parent@.contains_key(w));
                                assert(takes_hop(
                                    arcs,
                                    earlier.tree.parent@[w].wire,
                                    earlier.tree.parent@[w].pip,
                                    w,
                                ));
                            }
                        }
                    }
                }
                let delay_ps: u32 = match router.costs {
                    Some(costs) => costs.pip_delays_ps[pip.0],
                    None => 0,
                };
                arrival_ps = arrival_ps.saturating_add(delay_ps as u64);
                growth.note_arrival(wire, arrival_ps, arrivals);
                step = step + 1;
            }
            let copy = arc.copied();
            let ghost last = growth.arcs@;
            if let Some(sink) = copy.sink {
                growth.routed.insert(sink);
            }
            growth.arcs.push(copy);
            proof {
                assert forall|i: int| 0 <= i < index + 1 implies growth.on_tree(
                    #[trigger] growth.arcs@[i],
                ) by {
                    if i < index {
                        assert(before.on_tree(before.arcs@[i]));
                        assert forall|k: int|
                            0 <= k < growth.arcs@[i].wires@.len() implies growth.tree.wires@.contains(
                            #[trigger] growth.arcs@[i].wires@[k],
                        ) by {
                            assert(before.tree.wires@.contains(before.arcs@[i].wires@[k]));
                        }
                    }
                }
                assert forall|s: CellPinId| #[trigger] growth.routed@.contains(s) <==> exists|i: int|
                    0 <= i < growth.arcs@.len() && (#[trigger] growth.arcs@[i]).sink == Some(s) by {
                    if before.routed@.contains(s) {
                        let i = choose|i: int|
                            0 <= i < last.len() && (#[trigger] before.arcs@[i]).sink == Some(s);
                        assert(growth.arcs@[i].sink == Some(s));
                    }
                    if copy.sink == Some(s) {
                        assert(growth.arcs@[index as int].sink == Some(s));
                    }
                    if exists|i: int|
                        0 <= i < growth.arcs@.len() && (#[trigger] growth.arcs@[i]).sink == Some(s) {
                        let i = choose|i: int|
                            0 <= i < growth.arcs@.len() && (#[trigger] growth.arcs@[i]).sink
                                == Some(s);
                        if i < index {
                            assert(before.arcs@[i].sink == Some(s));
                        }
                    }
                }
            }
            index = index + 1;
        }
        proof {
            growth.lemma_planted(*router, net, driver, arcs, arrivals@);
        }
        growth
    }

    /// Every hop of the tree is one of the immutable arcs.
    spec fn planted(
        &self,
        router: NetRouter<'_>,
        driver: WireId,
        fixed: Seq<RouteArc>,
        arrivals: Seq<u64>,
    ) -> bool {
        let device = router.graph.device;
        &&& self.tree.wf(device)
        &&& self.tree.driver == driver
        &&& forall|w: WireId| #[trigger]
            self.tree.wires@.contains(w) ==> w.0 < device.wires@.len()
        &&& forall|w: WireId|
            self.tree.parent@.contains_key(w) ==> #[trigger] takes_hop(
                fixed,
                self.tree.parent@[w].wire,
                self.tree.parent@[w].pip,
                w,
            )
        &&& arrivals.len() == device.wires@.len()
        &&& forall|w: int|
            0 <= w < arrivals.len() && #[trigger] arrivals[w] != UNROUTED_ARRIVAL_PS
                ==> self.tree.wires@.contains(WireId(w as usize))
    }

    /// A tree that holds every immutable arc is a sound growth.
    proof fn lemma_planted(
        &self,
        router: NetRouter<'_>,
        net: NetId,
        driver: WireId,
        fixed: Seq<RouteArc>,
        arrivals: Seq<u64>,
    )
        requires
            router.arcs_fit(net, driver, fixed),
            router.driver_wire(net) == Some(driver),
            self.planted(router, driver, fixed, arrivals),
            self.routed.wf(),
            self.arcs@.len() == fixed.len(),
            forall|i: int| 0 <= i < fixed.len() ==> (#[trigger] self.arcs@[i]).same(&fixed[i]),
            forall|i: int| 0 <= i < fixed.len() ==> self.on_tree(#[trigger] self.arcs@[i]),
            forall|s: CellPinId| #[trigger]
                self.routed@.contains(s) <==> exists|i: int|
                    0 <= i < self.arcs@.len() && (#[trigger] self.arcs@[i]).sink == Some(s),
        ensures
            self.wf(router, net, fixed, arrivals),
    {
        assert forall|i: int| 0 <= i < self.arcs@.len() implies router.arc_fits(
            net,
            driver,
            #[trigger] self.arcs@[i],
        ) by {
            assert(self.arcs@[i].same(&fixed[i]));
            assert(router.arc_fits(net, driver, fixed[i]));
            assert forall|k: int| 0 <= k < self.arcs@[i].pips@.len() implies router.graph.device.leads(
                self.arcs@[i].wires@[k],
                #[trigger] self.arcs@[i].pips@[k],
                self.arcs@[i].wires@[k + 1],
            ) by {
                assert(router.graph.device.leads(
                    fixed[i].wires@[k],
                    fixed[i].pips@[k],
                    fixed[i].wires@[k + 1],
                ));
            }
        }
        assert forall|a: int, b: int|
            0 <= a < b < self.arcs@.len() && (#[trigger] self.arcs@[a]).sink
                is Some implies self.arcs@[a].sink != (#[trigger] self.arcs@[b]).sink by {
            assert(self.arcs@[a].same(&fixed[a]));
            assert(self.arcs@[b].same(&fixed[b]));
            assert(fixed[a].sink != fixed[b].sink);
        }
        assert forall|w: WireId| self.tree.parent@.contains_key(w) implies #[trigger] router.hop_granted(
            fixed,
            self.tree.parent@[w].wire,
            self.tree.parent@[w].pip,
            w,
        ) by {
            assert(takes_hop(fixed, self.tree.parent@[w].wire, self.tree.parent@[w].pip, w));
        }
        if consistent(fixed) {
            assert forall|i: int| 0 <= i < self.arcs@.len() implies self.tree.follows(
                (#[trigger] self.arcs@[i]).wires@,
                self.arcs@[i].pips@,
            ) by {
                let arc = self.arcs@[i];
                assert(arc.same(&fixed[i]));
                assert(router.arc_fits(net, driver, arc));
                assert(self.on_tree(arc));
                assert forall|k: int| 0 <= k < arc.pips@.len() implies {
                    &&& self.tree.parent@.contains_key(arc.wires@[k + 1])
                    &&& self.tree.parent@[arc.wires@[k + 1]] == (ParentHop {
                        wire: arc.wires@[k],
                        pip: #[trigger] arc.pips@[k],
                    })
                } by {
                    let w = arc.wires@[k + 1];
                    assert(arc.wires@[0] != arc.wires@[k + 1]);
                    assert(self.tree.wires@.contains(arc.wires@[k + 1]));
                    let hop = self.tree.parent@[w];
                    assert(takes_hop(fixed, hop.wire, hop.pip, w));
                    let (b, j) = choose|b: int, j: int|
                        #![trigger fixed[b].pips@[j]]
                        0 <= b < fixed.len() && 0 <= j < fixed[b].pips@.len() && fixed[b].pips@[j]
                            == hop.pip && fixed[b].wires@[j] == hop.wire && fixed[b].wires@[j + 1]
                            == w;
                    assert(hops_agree(fixed, i, k, b, j));
                    assert(fixed[i].wires@[k] == fixed[b].wires@[j] && fixed[i].pips@[k]
                        == fixed[b].pips@[j]);
                }
            }
        }
    }

    /// Failure of a connection whose tree is too fast for its sink.
    fn hold_failure(
        router: &NetRouter<'_>,
        net: NetId,
        sink: CellPinId,
        driver: WireId,
        minimum_arrival_ps: u64,
    ) -> (result: PnrError)
        requires
            router.wf(),
            net.0 < router.graph.design.nets@.len(),
            sink.0 < router.graph.design.pins@.len(),
            driver.0 < router.graph.device.wires@.len(),
        ensures
            result matches PnrError::Unroutable { net: name, driver: from, sink: to } && {
                &&& name@ == router.graph.design.nets@[net.0 as int].name@
                &&& from@ == "hold-constrained tree via "@
                    + router.graph.device.wires@[driver.0 as int].name@
                &&& to@ == router.pin_text(sink) + " requires at least "@ + decimal_text(
                    minimum_arrival_ps as nat,
                ) + " ps"@
            },
    {
        let design = router.graph.design();
        let pin = &design.pins[sink.0];
        let mut from = String::from_str("hold-constrained tree via ");
        from.append(router.graph.device().wires[driver.0].name.as_str());
        let mut to = design.cells[pin.cell.0].name.clone();
        to.append(".");
        to.append(pin.name.as_str());
        to.append(" requires at least ");
        append_decimal(&mut to, minimum_arrival_ps);
        to.append(" ps");
        proof {
            assert(to@ =~= router.pin_text(sink) + " requires at least "@ + decimal_text(
                minimum_arrival_ps as nat,
            ) + " ps"@);
        }
        PnrError::Unroutable { net: design.nets[net.0].name.clone(), driver: from, sink: to }
    }

    /// Name of a pin and of the wire that it stands on.
    fn describe(router: &NetRouter<'_>, pin: CellPinId, wire: WireId) -> (result: String)
        requires
            router.wf(),
            pin.0 < router.graph.design.pins@.len(),
            wire.0 < router.graph.device.wires@.len(),
        ensures
            result@ == router.graph.design.cells@[router.graph.design.pins@[pin.0 as int].cell.0 as int].name@
                + "."@ + router.graph.design.pins@[pin.0 as int].name@ + " via "@
                + router.graph.device.wires@[wire.0 as int].name@,
    {
        let design = router.graph.design();
        let record = &design.pins[pin.0];
        let mut text = design.cells[record.cell.0].name.clone();
        text.append(".");
        text.append(record.name.as_str());
        text.append(" via ");
        text.append(router.graph.device().wires[wire.0].name.as_str());
        text
    }

    /// Joins one sink to the tree.
    fn connect_sink(
        &mut self,
        router: &NetRouter<'_>,
        net: NetId,
        index: usize,
        sink: CellPinId,
        search: &mut RouteSearch,
        arrivals: &mut Vec<u64>,
        blockers: &mut HardRoutingBlockers,
        Ghost(fixed): Ghost<Seq<RouteArc>>,
    ) -> (result: Result<(), PnrError>)
        requires
            router.wf(),
            net.0 < router.graph.design.nets@.len(),
            index < router.graph.design.nets@[net.0 as int].sinks@.len(),
            router.graph.design.nets@[net.0 as int].sinks@[index as int] == sink,
            old(self).wf(*router, net, fixed, old(arrivals)@),
            old(search).wf(router.graph.device.wires@.len() as int),
            old(blockers).wf(),
        ensures
            final(self).wf(*router, net, fixed, final(arrivals)@),
            final(self).tree.driver == old(self).tree.driver,
            final(search).wf(router.graph.device.wires@.len() as int),
            final(search).same_estimates(old(search)),
            final(blockers).wf(),
            router.records_full(*old(blockers), *final(blockers)),
            old(self).routed@.subset_of(final(self).routed@),
            match result {
                Ok(()) => final(self).routed@.contains(sink) && pin_wire(
                    router.graph,
                    router.placement,
                    sink,
                ) is Some && router.joins_sink(
                    net,
                    sink,
                    *old(search),
                    old(self).point(old(arrivals)@, old(blockers).met()),
                    final(self).point(final(arrivals)@, final(blockers).met()),
                ),
                Err(error) => router.net_failure(net, error) && router.fails_at(
                    net,
                    sink,
                    *old(search),
                    old(self).point(old(arrivals)@, old(blockers).met()),
                    error,
                    final(blockers).met(),
                ),
            },
    {
        let design = router.graph.design();
        let ghost record = design.nets@[net.0 as int];
        assert(record.sinks@[index as int] == sink);
        assert(sink.0 < design.pins@.len());
        let sink_cell = design.pins[sink.0].cell;
        let sink_bel = match router.placement.bel(sink_cell) {
            None => {
                return Err(PnrError::MissingPlacement { cell: sink_cell });
            },
            Some(bel) => bel,
        };
        let goal = match router.pin_wires.resolve(
            &router.graph,
            router.placement,
            sink,
            sink_bel,
        ) {
            Err(error) => {
                return Err(error);
            },
            Ok(wire) => wire,
        };
        let driver = self.tree.driver;
        let minimum_arrival_ps: u64 = routing_sink_minimum(router.costs, net, sink);
        assert(self.tree.wires@.contains(driver));
        if self.routed.contains(sink) {
            if arrivals[goal.0] >= minimum_arrival_ps {
                return Ok(());
            }
            return Err(Self::hold_failure(router, net, sink, driver, minimum_arrival_ps));
        }
        if self.tree.wires.contains(goal) {
            if arrivals[goal.0] < minimum_arrival_ps {
                return Err(Self::hold_failure(router, net, sink, driver, minimum_arrival_ps));
            }
            let ghost before = *self;
            if let Some(arc) = self.tree.arc_to(Some(sink), goal, router.graph.device()) {
                self.arcs.push(arc);
                self.routed.insert(sink);
                proof {
                    self.lemma_arc_added(before, *router, net, fixed, sink, arrivals@, arc);
                    assert(self.arcs@.take(before.arcs@.len() as int) =~= before.arcs@);
                }
            }
            return Ok(());
        }
        match router.find_extension(
            net,
            sink,
            goal,
            minimum_arrival_ps,
            &self.tree,
            search,
            arrivals,
            blockers,
        ) {
            None => {
                let from = Self::describe(router, design.nets[net.0].driver, driver);
                let to = Self::describe(router, sink, goal);
                proof {
                    let none: Option<(Vec<WireId>, Vec<PipId>)> = None;
                    let query = choose|query: RouteQuery<'_>|
                        {
                            &&& #[trigger] router.asks(query, net, sink, goal, arrivals@)
                            &&& router.sink_answer(
                                *old(search),
                                query,
                                &self.tree.wires,
                                minimum_arrival_ps,
                                none,
                                blockers.met(),
                            )
                        };
                    let before = self.point(arrivals@, old(blockers).met());
                    assert(router.asks(query, net, sink, goal, before.arrivals));
                    assert(router.sink_answer(
                        *old(search),
                        query,
                        &before.tree.wires,
                        sink_minimum(router.costs, net, sink),
                        none,
                        blockers.met(),
                    ));
                    assert(router.finds_none(
                        net,
                        sink,
                        goal,
                        *old(search),
                        before,
                        blockers.met(),
                    ));
                }
                Err(
                    PnrError::Unroutable {
                        net: design.nets[net.0].name.clone(),
                        driver: from,
                        sink: to,
                    },
                )
            },
            Some(path) => {
                proof {
                    let query = choose|query: RouteQuery<'_>|
                        {
                            &&& #[trigger] router.asks(query, net, sink, goal, arrivals@)
                            &&& router.sink_answer(
                                *old(search),
                                query,
                                &self.tree.wires,
                                minimum_arrival_ps,
                                Some(path),
                                blockers.met(),
                            )
                        };
                    let before = self.point(arrivals@, old(blockers).met());
                    assert(router.asks(query, net, sink, goal, before.arrivals));
                    assert(router.sink_answer(
                        *old(search),
                        query,
                        &before.tree.wires,
                        sink_minimum(router.costs, net, sink),
                        Some(path),
                        blockers.met(),
                    ));
                    assert(router.finds_path(
                        net,
                        sink,
                        goal,
                        *old(search),
                        before,
                        path,
                        blockers.met(),
                    ));
                }
                let ghost given = path;
                let ghost before = self.point(arrivals@, old(blockers).met());
                self.extend(
                    router,
                    net,
                    sink,
                    goal,
                    minimum_arrival_ps,
                    path,
                    arrivals,
                    Ghost(fixed),
                    Ghost(old(blockers).met()),
                    Ghost(blockers.met()),
                );
                proof {
                    let after = self.point(arrivals@, blockers.met());
                    assert(before.met.within(after.met));
                    assert(router.finds_path(
                        net,
                        sink,
                        goal,
                        *old(search),
                        before,
                        given,
                        after.met,
                    ));
                }
                Ok(())
            },
        }
    }

    /// Forgets the arrivals of the tree.
    fn forget_arrivals(&self, arrivals: &mut Vec<u64>)
        requires
            self.tree.wires.wf(),
            forall|w: WireId| #[trigger]
                self.tree.wires@.contains(w) ==> w.0 < old(arrivals)@.len(),
            forall|w: int|
                0 <= w < old(arrivals)@.len() && #[trigger] old(arrivals)@[w]
                    != UNROUTED_ARRIVAL_PS ==> self.tree.wires@.contains(WireId(w as usize)),
        ensures
            final(arrivals)@.len() == old(arrivals)@.len(),
            all_unrouted(final(arrivals)@),
    {
        let mut index: usize = 0;
        let wires = &self.tree.wires;
        while index < wires.len()
            invariant
                index <= wires.ordered().len(),
                wires.wf(),
                wires == &self.tree.wires,
                arrivals@.len() == old(arrivals)@.len(),
                forall|w: WireId| #[trigger]
                    wires@.contains(w) ==> w.0 < arrivals@.len(),
                forall|w: int|
                    0 <= w < arrivals@.len() && #[trigger] arrivals@[w] != UNROUTED_ARRIVAL_PS
                        ==> wires@.contains(WireId(w as usize)),
                forall|i: int|
                    0 <= i < index ==> arrivals@[(#[trigger] wires.ordered()[i]).0 as int]
                        == UNROUTED_ARRIVAL_PS,
            decreases wires.ordered().len() - index,
        {
            let wire = wires.at(index);
            arrivals.set(wire.0, UNROUTED_ARRIVAL_PS);
            index = index + 1;
        }
        proof {
            assert(arrivals.len() == arrivals@.len());
            assert forall|w: int| 0 <= w < arrivals@.len() implies #[trigger] arrivals@[w]
                == UNROUTED_ARRIVAL_PS by {
                if arrivals@[w] != UNROUTED_ARRIVAL_PS {
                    let wire = WireId(w as usize);
                    assert(wires@.contains(wire));
                    wires.membership(wire);
                    let i = wires.ordered().index_of(wire);
                    assert(wires.ordered()[i] == wire);
                    assert(wire.0 < arrivals@.len());
                }
            }
        }
    }

    /// Arcs to every sink make a route that serves the net.
    proof fn lemma_serves(
        &self,
        router: NetRouter<'_>,
        net: NetId,
        fixed: Seq<RouteArc>,
        arrivals: Seq<u64>,
        route: NetRoute,
    )
        requires
            router.wf(),
            net.0 < router.graph.design.nets@.len(),
            self.wf(router, net, fixed, arrivals),
            router.is_bound(net),
            forall|k: int|
                0 <= k < router.graph.design.nets@[net.0 as int].sinks@.len()
                    ==> self.routed@.contains(
                    #[trigger] router.graph.design.nets@[net.0 as int].sinks@[k],
                ),
            route.net == net,
            route.is_fresh(),
            arcs_sorted(route.arcs@),
            route.arcs@.to_multiset() == self.arcs@.to_multiset(),
        ensures
            router.serves(net, fixed, route),
    {
        let record = router.graph.design.nets@[net.0 as int];
        let arcs = self.arcs@;
        assert forall|i: int| 0 <= i < route.arcs@.len() implies router.arc_fits(
            net,
            self.tree.driver,
            #[trigger] route.arcs@[i],
        ) by {
            let k = lemma_counterpart(route.arcs@, arcs, i);
            assert(router.arc_fits(net, self.tree.driver, arcs[k]));
        }
        assert forall|a: int, b: int|
            0 <= a < b < route.arcs@.len() && (#[trigger] route.arcs@[a]).sink
                is Some implies route.arcs@[a].sink != (#[trigger] route.arcs@[b]).sink by {
            if route.arcs@[a].sink == route.arcs@[b].sink {
                let x = lemma_counterpart(route.arcs@, arcs, a);
                let y = lemma_counterpart(route.arcs@, arcs, b);
                if x < y {
                    assert(arcs[x].sink != arcs[y].sink);
                } else if y < x {
                    assert(arcs[y].sink != arcs[x].sink);
                } else {
                    crate::ordered::lemma_twice_counted(route.arcs@, a, b);
                    let (i, j) = crate::ordered::lemma_counted_twice(arcs, arcs[x]);
                    assert(arcs[i].sink != arcs[j].sink);
                }
            }
        }
        assert forall|k: int| 0 <= k < record.sinks@.len() implies route.reaches(
            #[trigger] record.sinks@[k],
        ) by {
            let sink = record.sinks@[k];
            assert(self.routed@.contains(sink));
            let a = choose|a: int| 0 <= a < arcs.len() && (#[trigger] arcs[a]).sink == Some(sink);
            let i = lemma_counterpart(arcs, route.arcs@, a);
            assert(route.arcs@[i].sink == Some(sink));
        }
        assert forall|f: int| 0 <= f < fixed.len() implies holds_arc(
            route.arcs@,
            #[trigger] fixed[f],
        ) by {
            assert(arcs[f].same(&fixed[f]));
            let i = lemma_counterpart(arcs, route.arcs@, f);
            assert(route.arcs@[i].same(&fixed[f]));
        }
        assert forall|i: int|
            0 <= i < route.arcs@.len() && (#[trigger] route.arcs@[i]).sink is None implies holds_arc(
            fixed,
            route.arcs@[i],
        ) by {
            let k = lemma_counterpart(route.arcs@, arcs, i);
            assert(k < fixed.len());
            assert(arcs[k].same(&fixed[k]));
            assert(fixed[k].same(&route.arcs@[i]));
        }
        assert forall|i: int, k: int|
            #![trigger route.arcs@[i].pips@[k]]
            0 <= i < route.arcs@.len() && 0 <= k
                < route.arcs@[i].pips@.len() implies router.hop_granted(
            fixed,
            route.arcs@[i].wires@[k],
            route.arcs@[i].pips@[k],
            route.arcs@[i].wires@[k + 1],
        ) by {
            let a = lemma_counterpart(route.arcs@, arcs, i);
            let arc = arcs[a];
            if a < fixed.len() {
                assert(arc.same(&fixed[a]));
                assert(fixed[a].pips@[k] == arc.pips@[k]);
                assert(takes_hop(fixed, arc.wires@[k], arc.pips@[k], arc.wires@[k + 1]));
            } else {
                assert(self.tree.follows(arc.wires@, arc.pips@));
                let pip = arc.pips@[k];
                let w = arc.wires@[k + 1];
                assert(self.tree.parent@.contains_key(w));
                assert(router.hop_granted(
                    fixed,
                    self.tree.parent@[w].wire,
                    self.tree.parent@[w].pip,
                    w,
                ));
            }
        }
        if consistent(fixed) {
            assert forall|i: int| 0 <= i < route.arcs@.len() implies self.tree.follows(
                (#[trigger] route.arcs@[i]).wires@,
                route.arcs@[i].pips@,
            ) by {
                let k = lemma_counterpart(route.arcs@, arcs, i);
                assert(self.tree.follows(arcs[k].wires@, arcs[k].pips@));
            }
            lemma_follows_consistent(&self.tree, route.arcs@);
        }
    }
}

impl<'a> NetRouter<'a> {
    /// Distance of every sink of a net from its driver.
    fn sink_distances(&self, net: NetId, driver: crate::model::BelId) -> (result: OrderedMap<
        CellPinId,
        u64,
    >)
        requires
            self.wf(),
            net.0 < self.graph.design.nets@.len(),
            driver.0 < self.graph.device.bels@.len(),
        ensures
            result.wf(),
            forall|k: int|
                0 <= k < self.graph.design.nets@[net.0 as int].sinks@.len() ==> {
                    let sink = #[trigger] self.graph.design.nets@[net.0 as int].sinks@[k];
                    &&& result@.contains_key(sink)
                    &&& result@[sink] == match self.placement.bel_of(
                        self.graph.design.pins@[sink.0 as int].cell,
                    ) {
                        Some(bel) => self.graph.device.bels@[bel.0 as int].point.distance(
                            self.graph.device.bels@[driver.0 as int].point,
                        ) as u64,
                        None => u64::MAX,
                    }
                },
    {
        let design = self.graph.design();
        let device = self.graph.device();
        let sinks = &design.nets[net.0].sinks;
        let driver_point = device.bels[driver.0].point;
        let mut result: OrderedMap<CellPinId, u64> = OrderedMap::new();
        let mut index: usize = 0;
        while index < sinks.len()
            invariant
                index <= sinks@.len(),
                self.wf(),
                net.0 < self.graph.design.nets@.len(),
                design == self.graph.design,
                device == self.graph.device,
                driver.0 < device.bels@.len(),
                driver_point == device.bels@[driver.0 as int].point,
                sinks@ == design.nets@[net.0 as int].sinks@,
                result.wf(),
                forall|k: int|
                    0 <= k < index ==> {
                        let sink = #[trigger] sinks@[k];
                        &&& result@.contains_key(sink)
                        &&& result@[sink] == match self.placement.bel_of(
                            design.pins@[sink.0 as int].cell,
                        ) {
                            Some(bel) => device.bels@[bel.0 as int].point.distance(
                                driver_point,
                            ) as u64,
                            None => u64::MAX,
                        }
                    },
            decreases sinks@.len() - index,
        {
            let sink = sinks[index];
            assert(design.nets@[net.0 as int].sinks@[index as int] == sink);
            let distance: u64 = match self.placement.bel(design.pins[sink.0].cell) {
                Some(bel) => device.bels[bel.0].point.manhattan(driver_point),
                None => u64::MAX,
            };
            result.insert(sink, distance);
            index = index + 1;
        }
        result
    }

    /// Routes one net: keeps its immutable part and grows the tree to every other sink.
    ///
    /// Where no sink has a minimum delay, the net is routed exactly if its pins
    /// stand on wires and open hops lead from the driver to each sink.
    pub fn route_net(
        &self,
        fixed: Option<&NetRoute>,
        net: NetId,
        search: &mut RouteSearch,
        arrivals: &mut Vec<u64>,
        blockers: &mut HardRoutingBlockers,
    ) -> (result: Result<NetRoute, PnrError>)
        requires
            self.wf(),
            net.0 < self.graph.design.nets@.len(),
            self.fixed_fits(net, fixed),
            old(search).wf(self.graph.device.wires@.len() as int),
            old(arrivals)@.len() == self.graph.device.wires@.len(),
            all_unrouted(old(arrivals)@),
            old(blockers).wf(),
        ensures
            final(search).wf(self.graph.device.wires@.len() as int),
            final(search).same_estimates(old(search)),
            final(arrivals)@.len() == old(arrivals)@.len(),
            all_unrouted(final(arrivals)@),
            final(blockers).wf(),
            self.records_full(*old(blockers), *final(blockers)),
            match result {
                Ok(route) => self.serves(net, Self::fixed_arcs(fixed), route) && self.grows(
                    net,
                    Self::fixed_arcs(fixed),
                    *old(search),
                    route,
                    final(blockers).met(),
                ),
                Err(error) => self.net_failure(net, error) && self.strands(
                    net,
                    Self::fixed_arcs(fixed),
                    *old(search),
                    error,
                    final(blockers).met(),
                ),
            },
    {
        let design = self.graph.design();
        let device = self.graph.device();
        let driver_pin = design.nets[net.0].driver;
        let driver_cell = design.pins[driver_pin.0].cell;
        let driver_bel = match self.placement.bel(driver_cell) {
            None => {
                return Err(PnrError::MissingPlacement { cell: driver_cell });
            },
            Some(bel) => bel,
        };
        let driver = match self.pin_wires.resolve(
            &self.graph,
            self.placement,
            driver_pin,
            driver_bel,
        ) {
            Err(error) => {
                return Err(error);
            },
            Ok(wire) => wire,
        };
        let ghost arcs = Self::fixed_arcs(fixed);
        let mut growth = NetGrowth::plant(
            self,
            net,
            fixed,
            driver,
            arrivals,
            Ghost(blockers.met()),
        );
        let distances = self.sink_distances(net, driver_bel);
        let sinks = ordered_sinks(
            net,
            design.nets[net.0].sinks.as_slice(),
            self.costs,
            &distances,
        );
        let ghost record = design.nets@[net.0 as int];
        proof {
            sinks@.to_multiset_ensures();
            record.sinks@.to_multiset_ensures();
        }
        let ghost mut chain: Seq<GrowthPoint> = seq![growth.point(arrivals@, blockers.met())];
        proof {
            assert forall|k: int| 0 <= k < record.sinks@.len() implies distances@[
            #[trigger] record.sinks@[k]] == self.sink_distance(net, record.sinks@[k]) by {
                assert(design.nets@[net.0 as int].sinks@[k] == record.sinks@[k]);
            }
            assert(self.orders_sinks(net, distances@, sinks@));
            assert(self.is_sink_sequence(net, sinks@));
        }
        let mut index: usize = 0;
        while index < sinks.len()
            invariant
                index <= sinks@.len(),
                self.is_growth(net, arcs, *old(search), sinks@, chain),
                chain.len() == index + 1,
                chain.last() == growth.point(arrivals@, blockers.met()),
                self.wf(),
                net.0 < self.graph.design.nets@.len(),
                design == self.graph.design,
                device == self.graph.device,
                record == design.nets@[net.0 as int],
                sinks@.to_multiset() == record.sinks@.to_multiset(),
                forall|s: CellPinId|
                    record.sinks@.contains(s) <==> #[trigger] record.sinks@.to_multiset().count(s)
                        > 0,
                forall|s: CellPinId|
                    sinks@.contains(s) <==> #[trigger] sinks@.to_multiset().count(s) > 0,
                arcs == Self::fixed_arcs(fixed),
                growth.wf(*self, net, arcs, arrivals@),
                search.wf(device.wires@.len() as int),
                search.same_estimates(old(search)),
                arrivals@.len() == old(arrivals)@.len(),
                blockers.wf(),
                self.records_full(*old(blockers), *blockers),
                forall|i: int|
                    0 <= i < index ==> growth.routed@.contains(#[trigger] sinks@[i]) && pin_wire(
                        self.graph,
                        self.placement,
                        sinks@[i],
                    ) is Some,
            decreases sinks@.len() - index,
        {
            let sink = sinks[index];
            proof {
                assert(sinks@.contains(sink));
                assert(record.sinks@.to_multiset().count(sink) > 0);
                assert(record.sinks@.contains(sink));
            }
            let at: usize = self.sink_position(net, sink);
            let ghost settings = *search;
            match growth.connect_sink(
                self,
                net,
                at,
                sink,
                search,
                arrivals,
                blockers,
                Ghost(arcs),
            ) {
                Err(error) => {
                    proof {
                        self.lemma_same_failure(
                            net,
                            sink,
                            settings,
                            *old(search),
                            chain.last(),
                            error,
                            blockers.met(),
                        );
                        assert(self.is_growth(net, arcs, *old(search), sinks@, chain));
                    }
                    growth.forget_arrivals(arrivals);
                    return Err(error);
                },
                Ok(()) => {},
            }
            proof {
                let next = growth.point(arrivals@, blockers.met());
                self.lemma_same_estimates(
                    net,
                    sink,
                    settings,
                    *old(search),
                    chain.last(),
                    next,
                );
                self.lemma_growth_step(net, arcs, *old(search), sinks@, chain, next);
                chain = chain.push(next);
            }
            index = index + 1;
        }
        growth.forget_arrivals(arrivals);
        let ghost grown = growth;
        let ghost last_arrivals = arrivals@;
        let NetGrowth { arcs: built, .. } = growth;
        let route = NetRoute::new(net, built);
        proof {
            assert forall|k: int| 0 <= k < record.sinks@.len() implies grown.routed@.contains(
                #[trigger] record.sinks@[k],
            ) && pin_wire(self.graph, self.placement, record.sinks@[k]) is Some by {
                let sink = record.sinks@[k];
                assert(record.sinks@.contains(sink));
                assert(sinks@.to_multiset().count(sink) > 0);
                assert(sinks@.contains(sink));
                let i = sinks@.index_of(sink);
                assert(sinks@[i] == sink);
            }
            grown.lemma_serves(*self, net, arcs, last_arrivals, route);
            assert(self.is_growth(net, arcs, *old(search), sinks@, chain));
        }
        Ok(route)
    }

    /// Position of a sink in its net.
    fn sink_position(&self, net: NetId, sink: CellPinId) -> (result: usize)
        requires
            net.0 < self.graph.design.nets@.len(),
            self.graph.design.nets@[net.0 as int].sinks@.contains(sink),
        ensures
            result < self.graph.design.nets@[net.0 as int].sinks@.len(),
            self.graph.design.nets@[net.0 as int].sinks@[result as int] == sink,
    {
        let sinks = &self.graph.design().nets[net.0].sinks;
        let mut index: usize = 0;
        while index < sinks.len()
            invariant
                index <= sinks@.len(),
                sinks@.contains(sink),
                forall|k: int| 0 <= k < index ==> #[trigger] sinks@[k] != sink,
            ensures
                index < sinks@.len(),
                sinks@[index as int] == sink,
            decreases sinks@.len() - index,
        {
            if sinks[index] == sink {
                break ;
            }
            index = index + 1;
        }
        index
    }
}

} // verus!
