//! Legal rerouting of a cohort of whole nets.

use std::sync::Arc;

use vstd::prelude::*;
use vstd::string::*;

use crate::cost_validation::{costs_valid, lemma_valid_costs_fit, validate_routing_costs};
use crate::device::{Device, UnifiedGraph};
use crate::eco::{lemma_legal_is_within, LegalRouteEcoOptions};
use crate::eco_stage::{
    check_incumbent, incumbent_defect, incumbent_fits, is_legal, is_room, load_incumbent,
    net_bound, rebuild, regrown, roomy_hop, search_halts, searched, stored_in_order,
    validate_legal_eco_capacity,
};
use crate::error::PnrError;
use crate::model::{Design, NetId, PipId};
use crate::negotiate::{lemma_within_is_countable, within_capacity};
use crate::net_growth::NetRouter;
use crate::net_routing::{arc_fits, arcs_fit, consistent, driver_wire, holds_arc, takes_hop};
use crate::net_state::{
    arcs_kept, lemma_arcs_slot_fits, lemma_kept_resources, locked_arcs, serves_net, unblocked_hop,
};
use crate::occupancy::{
    lemma_users_update, pip_sets, slot_pips, slot_wires, users, wire_sets,
};
use crate::ordered::{lemma_counterpart, sort_keys, OrderedKey, OrderedSet};
use crate::placement::PinWireCache;
use crate::retain::{all_sinks_reached, ends_at, route_reaches_all_sinks, sink_reached};
use crate::route::NetRoute;
use crate::route_shape::is_tree;
use crate::routing::{
    count_pips, lemma_pips_known, route_is_tree, served_net_is_tree, used_pips, PnrResult,
};
use crate::routing_constraints::RoutingConstraints;
use crate::routing_costs::{
    arc_criticality, net_criticality, routing_arc_criticality, routing_criticality, share,
    RoutingCosts,
};
use crate::slots::enters_full;
use crate::text::{decimal_text, twice_numbered};
use crate::validation::{
    constraint_defect, constraints_fit, route_fits, validate_routing_constraints};
use crate::workspace::{
    constraint_slot, countable, filled, lemma_sets_update, slot_fits, slots_fit, RoutingWorkspace,
};

verus! {

/// Place of a net in the order of rebuilding: the most critical first, then by ID.
#[derive(Clone, Copy, Debug, PartialEq, Eq, Structural)]
pub struct NetPriority {
    /// Criticality of the net's most critical sink.
    pub criticality: u64,
    /// Net.
    pub net: NetId,
}

impl OrderedKey for NetPriority {
    open spec fn rank(self) -> int {
        (u64::MAX - self.criticality) * 0x1_0000_0000_0000_0000 + self.net.0
    }

    proof fn rank_is_injective(a: Self, b: Self) {
    }

    fn precedes(self, other: Self) -> (result: bool) {
        if self.criticality != other.criticality {
            self.criticality > other.criticality
        } else {
            self.net.0 < other.net.0
        }
    }
}

/// Criticality of the most critical of some sinks.
pub open spec fn sink_maximum(
    costs: &RoutingCosts,
    net: NetId,
    sinks: Seq<crate::model::CellPinId>,
) -> u64
    decreases sinks.len(),
{
    if sinks.len() == 0 {
        0
    } else {
        let rest = sink_maximum(costs, net, sinks.drop_last());
        let last = arc_criticality(Some(costs), net, sinks.last());
        if last > rest {
            last
        } else {
            rest
        }
    }
}

/// Criticality by which a net is ordered.
pub open spec fn cohort_criticality(design: &Design, costs: &RoutingCosts, net: NetId) -> u64 {
    let sinks = design.nets@[net.0 as int].sinks@;
    if sinks.len() == 0 {
        net_criticality(Some(costs), net)
    } else {
        sink_maximum(costs, net, sinks)
    }
}

/// Criticality of the most critical sink of the net.
fn find_criticality(design: &Design, costs: &RoutingCosts, net: NetId) -> (result: u64)
    requires
        costs.wf(),
        net.0 < design.nets@.len(),
    ensures
        result == cohort_criticality(design, costs, net),
{
    let sinks = &design.nets[net.0].sinks;
    if sinks.len() == 0 {
        return routing_criticality(Some(costs), net);
    }
    let mut best: u64 = 0;
    let mut index: usize = 0;
    while index < sinks.len()
        invariant
            index <= sinks@.len(),
            costs.wf(),
            best == sink_maximum(costs, net, sinks@.take(index as int)),
        decreases sinks@.len() - index,
    {
        let criticality: u64 = routing_arc_criticality(Some(costs), net, sinks[index]);
        if criticality > best {
            best = criticality;
        }
        proof {
            assert(sinks@.take(index + 1).drop_last() =~= sinks@.take(index as int));
            assert(sinks@.take(index + 1).last() == sinks@[index as int]);
        }
        index = index + 1;
    }
    assert(sinks@.take(index as int) =~= sinks@);
    best
}

/// The order holds every selected net once, the most critical first.
pub open spec fn is_rebuild_order(
    design: &Design,
    costs: &RoutingCosts,
    selected: Set<NetId>,
    order: Seq<NetPriority>,
) -> bool {
    &&& crate::ordered::nondecreasing(order)
    &&& forall|i: int|
        0 <= i < order.len() ==> {
            &&& selected.contains((#[trigger] order[i]).net)
            &&& order[i].criticality == cohort_criticality(design, costs, order[i].net)
        }
    &&& forall|n: NetId| #[trigger] selected.contains(n) ==> ranks_net(order, n)
    &&& forall|i: int, j: int|
        0 <= i < j < order.len() ==> (#[trigger] order[i]).net != (#[trigger] order[j]).net
}

/// The selected nets, the most critical first.
fn rebuild_order(design: &Design, costs: &RoutingCosts, selected: &OrderedSet<NetId>) -> (result: Vec<
    NetPriority,
>)
    requires
        costs.wf(),
        selected.wf(),
        forall|n: NetId| #[trigger] selected@.contains(n) ==> n.0 < design.nets@.len(),
    ensures
        is_rebuild_order(design, costs, selected@, result@),
{
    let mut order: Vec<NetPriority> = Vec::new();
    let ghost list = selected.ordered();
    let mut index: usize = 0;
    while index < selected.len()
        invariant
            index <= list.len(),
            list == selected.ordered(),
            costs.wf(),
            selected.wf(),
            forall|n: NetId| #[trigger] selected@.contains(n) ==> n.0 < design.nets@.len(),
            order@.len() == index,
            forall|i: int|
                0 <= i < index ==> {
                    &&& (#[trigger] order@[i]).net == list[i]
                    &&& order@[i].criticality == cohort_criticality(design, costs, list[i])
                },
        decreases list.len() - index,
    {
        let net = selected.at(index);
        assert(selected@.contains(net));
        order.push(NetPriority { criticality: find_criticality(design, costs, net), net });
        index = index + 1;
    }
    let ghost listed = order@;
    sort_keys(&mut order);
    proof {
        assert forall|i: int| 0 <= i < order@.len() implies {
            &&& selected@.contains((#[trigger] order@[i]).net)
            &&& order@[i].criticality == cohort_criticality(design, costs, order@[i].net)
        } by {
            let k = lemma_counterpart(order@, listed, i);
            assert(listed[k].net == list[k]);
            selected.membership(list[k]);
            assert(list.contains(list[k]));
        }
        assert forall|n: NetId| #[trigger] selected@.contains(n) implies ranks_net(order@, n) by {
            selected.membership(n);
            let k = list.index_of(n);
            assert(listed[k].net == n);
            let i = lemma_counterpart(listed, order@, k);
            assert(order@[i].net == n);
        }
        assert forall|i: int, j: int| 0 <= i < j < order@.len() implies (
        #[trigger] order@[i]).net != (#[trigger] order@[j]).net by {
            if order@[i].net == order@[j].net {
                let x = lemma_counterpart(order@, listed, i);
                let y = lemma_counterpart(order@, listed, j);
                assert(listed[x].net == list[x]);
                assert(listed[y].net == list[y]);
                if x == y {
                    crate::ordered::lemma_twice_counted(order@, i, j);
                    let (a, b) = crate::ordered::lemma_counted_twice(listed, listed[x]);
                    assert(listed[a].net == list[a]);
                    assert(listed[b].net == list[b]);
                    assert(list[a].rank() < list[b].rank());
                } else if x < y {
                    assert(list[x].rank() < list[y].rank());
                } else {
                    assert(list[y].rank() < list[x].rank());
                }
            }
        }
    }
    order
}

/// The order lists the net.
pub open spec fn ranks_net(order: Seq<NetPriority>, net: NetId) -> bool {
    exists|i: int| 0 <= i < order.len() && (#[trigger] order[i]).net == net
}

/// The request names nets of the design, and there is one route of each net.
pub open spec fn cohort_asked(
    design: &Design,
    incumbent: &PnrResult,
    net_ids: Seq<NetId>,
    options: LegalRouteEcoOptions,
) -> bool {
    &&& options.estimate_delay_per_tile_ps > 0
    &&& net_ids.len() > 0
    &&& incumbent.routes@.len() == design.nets@.len()
    &&& forall|i: int| 0 <= i < net_ids.len() ==> (#[trigger] net_ids[i]).0 < design.nets@.len()
}

/// The incumbent is structurally valid and holds the immutable part of each selected net.
pub open spec fn cohort_valid(
    graph: UnifiedGraph<'_>,
    incumbent: &PnrResult,
    constraints: &RoutingConstraints,
    costs: &RoutingCosts,
    selected: Set<NetId>,
) -> bool {
    &&& constraints_fit(graph, &incumbent.placement, constraints)
    &&& incumbent_fits(graph, &incumbent.placement, constraints, incumbent.routes@)
    &&& costs_valid(graph, costs)
    &&& forall|n: NetId| #[trigger]
        selected.contains(n) ==> arcs_kept(
            locked_arcs(constraints, n),
            incumbent.routes@[n.0 as int].arcs@,
        )
}

/// A legal routing in which only selected nets differ from the incumbent, each
/// of them again a tree to all its sinks that keeps its immutable part.
pub open spec fn is_cohort_candidate(
    graph: UnifiedGraph<'_>,
    incumbent: &PnrResult,
    constraints: &RoutingConstraints,
    selected: Set<NetId>,
    candidate: PnrResult,
) -> bool {
    &&& candidate.placement.same(&incumbent.placement)
    &&& candidate.routes@.len() == incumbent.routes@.len()
    &&& forall|i: int|
        0 <= i < candidate.routes@.len() && !selected.contains(NetId(i as usize))
            ==> #[trigger] candidate.routes@[i] == incumbent.routes@[i]
    &&& forall|n: NetId| #[trigger]
        selected.contains(n) ==> {
            &&& serves_net(
                graph,
                &incumbent.placement,
                constraints,
                n,
                *candidate.routes@[n.0 as int],
            )
            &&& is_tree(*candidate.routes@[n.0 as int])
        }
    &&& exists|n: NetId| #[trigger]
        selected.contains(n) && !candidate.routes@[n.0 as int].same_arcs(
            &*incumbent.routes@[n.0 as int],
        )
    &&& within_capacity(graph.device, filled(candidate.routes@))
    &&& candidate.total_pips == used_pips(candidate.routes@).len()
}

/// The inputs of one cohort.
#[derive(Clone, Copy)]
pub struct Cohort<'a> {
    /// Design and device.
    pub graph: UnifiedGraph<'a>,
    /// Routing that is changed.
    pub incumbent: &'a PnrResult,
    /// Wires of the placed pins.
    pub pin_wires: &'a PinWireCache,
    /// Immutable routes and forbidden PIPs.
    pub constraints: &'a RoutingConstraints,
    /// Delays and criticalities.
    pub costs: &'a RoutingCosts,
    /// Geometry-to-delay coefficient of the search.
    pub delay_per_tile_ps: u64,
    /// Nets that are rebuilt.
    pub selected: &'a OrderedSet<NetId>,
}

impl<'a> Cohort<'a> {
    /// The inputs fit each other.
    pub open spec fn wf(&self) -> bool {
        &&& self.graph.wf()
        &&& self.incumbent.placement.fits(self.graph.device)
        &&& self.pin_wires.holds(self.graph, &self.incumbent.placement)
        &&& self.constraints.wf()
        &&& self.costs.wf()
        &&& self.selected.wf()
        &&& forall|n: NetId| #[trigger]
            self.selected@.contains(n) ==> n.0 < self.graph.design.nets@.len()
        &&& cohort_valid(
            self.graph,
            self.incumbent,
            self.constraints,
            self.costs,
            self.selected@,
        )
    }

    /// The slot holds a complete new route of its net.
    pub open spec fn rebuilt(&self, index: int, slot: Option<Arc<NetRoute>>) -> bool {
        &&& slot is Some
        &&& serves_net(
            self.graph,
            &self.incumbent.placement,
            self.constraints,
            NetId(index as usize),
            *slot->0,
        )
        &&& is_tree(*slot->0)
    }

    /// What each slot holds once some selected nets are rebuilt.
    pub open spec fn slot_state(
        &self,
        index: int,
        slot: Option<Arc<NetRoute>>,
        done: Set<NetId>,
    ) -> bool {
        let net = NetId(index as usize);
        if !self.selected@.contains(net) {
            slot == Some(self.incumbent.routes@[index])
        } else if done.contains(net) {
            self.rebuilt(index, slot)
        } else {
            slot == constraint_slot(self.constraints, index)
        }
    }

    /// What the slots hold once some selected nets are rebuilt.
    pub open spec fn slots_state(&self, slots: Seq<Option<Arc<NetRoute>>>, done: Set<NetId>) -> bool {
        &&& slots.len() == self.incumbent.routes@.len()
        &&& forall|i: int| 0 <= i < slots.len() ==> self.slot_state(i, #[trigger] slots[i], done)
    }

    /// What searching for a route of the net among the slots gives.
    pub open spec fn net_searched(
        &self,
        slots: Seq<Option<Arc<NetRoute>>>,
        net: NetId,
        outcome: Option<NetRoute>,
    ) -> bool {
        searched(
            self.graph,
            &self.incumbent.placement,
            self.constraints,
            self.costs,
            self.delay_per_tile_ps,
            slots,
            net,
            locked_arcs(self.constraints, net),
            outcome,
        )
    }

    /// One net is rebuilt among what the slots hold by then.
    pub open spec fn is_rebuild_step(
        &self,
        order: Seq<NetPriority>,
        chain: Seq<Seq<Option<Arc<NetRoute>>>>,
        at: int,
    ) -> bool {
        let net = order[at].net;
        &&& chain[at + 1] == chain[at].update(net.0 as int, chain[at + 1][net.0 as int])
        &&& chain[at + 1][net.0 as int] matches Some(route) && self.net_searched(
            chain[at],
            net,
            Some(*route),
        ) && is_tree(*route)
        &&& within_capacity(self.graph.device, chain[at + 1])
    }

    /// The first nets are rebuilt in turn, the most critical first, from where
    /// every selected net is released.
    pub open spec fn is_rebuild(
        &self,
        order: Seq<NetPriority>,
        chain: Seq<Seq<Option<Arc<NetRoute>>>>,
    ) -> bool {
        &&& is_rebuild_order(self.graph.design, self.costs, self.selected@, order)
        &&& 0 < chain.len() <= order.len() + 1
        &&& self.slots_state(chain[0], Set::empty())
        &&& forall|i: int|
            0 <= i < chain.len() - 1 ==> #[trigger] self.is_rebuild_step(order, chain, i)
    }

    /// Rebuilding every selected net leads to the slots.
    pub open spec fn rebuilds_to(&self, slots: Seq<Option<Arc<NetRoute>>>) -> bool {
        exists|order: Seq<NetPriority>, chain: Seq<Seq<Option<Arc<NetRoute>>>>|
            #[trigger] self.is_rebuild(order, chain) && chain.len() == order.len() + 1
                && chain.last() == slots
    }

    /// The search finds no route of the net whose turn it is.
    pub open spec fn rebuild_stuck(&self) -> bool {
        exists|order: Seq<NetPriority>, chain: Seq<Seq<Option<Arc<NetRoute>>>>|
            #[trigger] self.is_rebuild(order, chain) && chain.len() <= order.len()
                && self.net_searched(chain.last(), order[chain.len() - 1].net, None)
    }

    /// One more net is rebuilt.
    proof fn lemma_rebuild_grows(
        &self,
        order: Seq<NetPriority>,
        chain: Seq<Seq<Option<Arc<NetRoute>>>>,
        next: Seq<Option<Arc<NetRoute>>>,
    )
        requires
            self.is_rebuild(order, chain),
            chain.len() <= order.len(),
            ({
                let net = order[chain.len() - 1].net;
                &&& next == chain.last().update(net.0 as int, next[net.0 as int])
                &&& next[net.0 as int] matches Some(route) && self.net_searched(
                    chain.last(),
                    net,
                    Some(*route),
                ) && is_tree(*route)
                &&& within_capacity(self.graph.device, next)
            }),
        ensures
            self.is_rebuild(order, chain.push(next)),
    {
        let longer = chain.push(next);
        assert forall|i: int| 0 <= i < longer.len() - 1 implies #[trigger] self.is_rebuild_step(
            order,
            longer,
            i,
        ) by {
            if i < chain.len() - 1 {
                assert(self.is_rebuild_step(order, chain, i));
                assert(longer[i] == chain[i] && longer[i + 1] == chain[i + 1]);
            } else {
                assert(longer[i] == chain.last());
            }
        }
    }

    /// The immutable part of a net.
    fn fixed_slot(&self, net: NetId) -> (result: Option<Arc<NetRoute>>)
        requires
            self.wf(),
            net.0 < self.graph.design.nets@.len(),
        ensures
            result == constraint_slot(self.constraints, net.0 as int),
            slot_fits(
                result,
                self.graph.device.wires@.len() as int,
                self.graph.device.pips@.len() as int,
            ),
    {
        assert(NetId(net.0 as int as usize) == net);
        match self.constraints.routes.get(net) {
            Some(route) => {
                proof {
                    assert(route_fits(
                        self.graph,
                        &self.incumbent.placement,
                        self.constraints,
                        net,
                        *self.constraints.routes@[net],
                    ));
                    lemma_arcs_slot_fits(self.graph, &self.incumbent.placement, net, *route);
                }
                Some(share(route))
            },
            None => None,
        }
    }

    /// Releases every movable part of the selected nets.
    fn release_selected(
        &self,
        slots: &mut Vec<Option<Arc<NetRoute>>>,
        workspace: &mut RoutingWorkspace,
        overused_wires: &mut OrderedSet<usize>,
        overused_pips: &mut OrderedSet<usize>,
    )
        requires
            self.wf(),
            old(slots)@ == filled(self.incumbent.routes@),
            old(workspace).wf(),
            old(workspace).fits(self.graph.device),
            !old(workspace).resident_valid,
            slots_fit(old(slots)@, old(workspace).wire_count(), old(workspace).pip_count()),
            old(workspace).carries(old(slots)@, old(overused_wires), old(overused_pips)),
            old(workspace).unpriced(),
        ensures
            self.slots_state(final(slots)@, Set::empty()),
            final(workspace).unpriced(),
            final(workspace).wf(),
            final(workspace).fits(self.graph.device),
            !final(workspace).resident_valid,
            final(workspace).search == old(workspace).search,
            slots_fit(final(slots)@, final(workspace).wire_count(), final(workspace).pip_count()),
            final(workspace).carries(final(slots)@, final(overused_wires), final(overused_pips)),
    {
        let ghost list = self.selected.ordered();
        let mut index: usize = 0;
        while index < self.selected.len()
            invariant
                index <= list.len(),
                list == self.selected.ordered(),
                self.wf(),
                slots@.len() == self.incumbent.routes@.len(),
                forall|i: int|
                    0 <= i < slots@.len() ==> #[trigger] slots@[i] == if list.take(
                        index as int,
                    ).contains(NetId(i as usize)) {
                        constraint_slot(self.constraints, i)
                    } else {
                        Some(self.incumbent.routes@[i])
                    },
                workspace.wf(),
                workspace.fits(self.graph.device),
                !workspace.resident_valid,
                workspace.search == old(workspace).search,
                workspace.unpriced(),
                slots_fit(slots@, workspace.wire_count(), workspace.pip_count()),
                workspace.carries(slots@, overused_wires, overused_pips),
            decreases list.len() - index,
        {
            let net = self.selected.at(index);
            assert(self.selected@.contains(net));
            let ghost before = slots@;
            proof {
                assert(slots.len() == slots@.len());
                assert(NetId(net.0 as int as usize) == net);
                if list.take(index as int).contains(net) {
                    let k = list.take(index as int).index_of(net);
                    assert(list[k].rank() < list[index as int].rank());
                }
                assert(before[net.0 as int] == Some(self.incumbent.routes@[net.0 as int]));
                assert(slot_fits(
                    before[net.0 as int],
                    workspace.wire_count(),
                    workspace.pip_count(),
                ));
            }
            let earlier = Some(share(&self.incumbent.routes[net.0]));
            let later = self.fixed_slot(net);
            proof {
                if let Some(fixed) = &later {
                    assert(route_fits(
                        self.graph,
                        &self.incumbent.placement,
                        self.constraints,
                        net,
                        *self.constraints.routes@[net],
                    ));
                    let whole = &self.incumbent.routes@[net.0 as int];
                    assert(route_fits(
                        self.graph,
                        &self.incumbent.placement,
                        self.constraints,
                        whole.net,
                        **whole,
                    ));
                    assert(arcs_kept(locked_arcs(self.constraints, net), whole.arcs@));
                    lemma_kept_resources(&**fixed, &**whole);
                }
            }
            let _ = workspace.swap_slot(
                &earlier,
                &later,
                overused_wires,
                overused_pips,
                Ghost(before),
                Ghost(net.0 as int),
            );
            let ghost given = later;
            slots.set(net.0, later);
            proof {
                assert(slots@ =~= before.update(net.0 as int, given));
                let shorter = list.take(index as int);
                let longer = list.take(index + 1);
                assert(longer =~= shorter.push(net));
                assert forall|i: int| 0 <= i < slots@.len() implies #[trigger] slots@[i]
                    == if longer.contains(NetId(i as usize)) {
                    constraint_slot(self.constraints, i)
                } else {
                    Some(self.incumbent.routes@[i])
                } by {
                    assert(before[i] == if shorter.contains(NetId(i as usize)) {
                        constraint_slot(self.constraints, i)
                    } else {
                        Some(self.incumbent.routes@[i])
                    });
                    let n = NetId(i as usize);
                    if shorter.contains(n) {
                        let k = shorter.index_of(n);
                        assert(longer[k] == n);
                    }
                    if i == net.0 {
                        assert(longer[index as int] == n);
                    } else if longer.contains(n) {
                        let k = longer.index_of(n);
                        assert(shorter[k] == n);
                    }
                }
                assert forall|i: int| 0 <= i < slots@.len() implies slot_fits(
                    #[trigger] slots@[i],
                    workspace.wire_count(),
                    workspace.pip_count(),
                ) by {
                    if i != net.0 {
                        assert(slot_fits(
                            before[i],
                            workspace.wire_count(),
                            workspace.pip_count(),
                        ));
                    }
                }
            }
            index = index + 1;
        }
        proof {
            assert(list.take(index as int) =~= list);
            assert forall|i: int| 0 <= i < slots@.len() implies self.slot_state(
                i,
                #[trigger] slots@[i],
                Set::empty(),
            ) by {
                self.selected.membership(NetId(i as usize));
            }
        }
    }
}

/// A net regrown from its immutable part is served.
proof fn lemma_regrown_serves(
    graph: UnifiedGraph<'_>,
    placement: &crate::placement::Placement,
    constraints: &RoutingConstraints,
    workspace: RoutingWorkspace,
    net: NetId,
    route: &NetRoute,
)
    requires
        net.0 < graph.design.nets@.len(),
        regrown(
            graph,
            placement,
            constraints,
            workspace,
            net,
            locked_arcs(constraints, net),
            *route,
        ),
    ensures
        serves_net(graph, placement, constraints, net, *route),
{
    let locked = locked_arcs(constraints, net);
    assert forall|i: int, k: int|
        #![trigger route.arcs@[i].pips@[k]]
        0 <= i < route.arcs@.len() && 0 <= k < route.arcs@[i].pips@.len() implies takes_hop(
        locked,
        route.arcs@[i].wires@[k],
        route.arcs@[i].pips@[k],
        route.arcs@[i].wires@[k + 1],
    ) || unblocked_hop(
        graph.device,
        constraints,
        route.arcs@[i].wires@[k],
        route.arcs@[i].pips@[k],
        route.arcs@[i].wires@[k + 1],
    ) by {
        assert(takes_hop(
            locked,
            route.arcs@[i].wires@[k],
            route.arcs@[i].pips@[k],
            route.arcs@[i].wires@[k + 1],
        ) || roomy_hop(
            graph.device,
            constraints,
            workspace,
            route.arcs@[i].wires@[k],
            route.arcs@[i].pips@[k],
            route.arcs@[i].wires@[k + 1],
        ));
    }
}

/// A served net is reached at the wires of all its sinks.
proof fn lemma_served_reaches(
    graph: UnifiedGraph<'_>,
    placement: &crate::placement::Placement,
    constraints: &RoutingConstraints,
    net: NetId,
    route: &NetRoute,
)
    requires
        serves_net(graph, placement, constraints, net, *route),
    ensures
        all_sinks_reached(graph, placement, *route),
{
    let driver = driver_wire(graph, placement, net)->0;
    let sinks = graph.design.nets@[net.0 as int].sinks@;
    assert forall|k: int| 0 <= k < sinks.len() implies sink_reached(
        graph,
        placement,
        *route,
        #[trigger] sinks[k],
    ) by {
        let sink = sinks[k];
        assert(route.reaches(sink));
        let i = choose|i: int|
            0 <= i < route.arcs@.len() && (#[trigger] route.arcs@[i]).sink == Some(sink);
        assert(arc_fits(graph, placement, net, driver, route.arcs@[i]));
        assert forall|j: int| 0 <= j < i implies (#[trigger] route.arcs@[j]).sink != Some(sink) by {
            if route.arcs@[j].sink == Some(sink) {
                assert(route.arcs@[j].sink != route.arcs@[i].sink);
            }
        }
        assert(ends_at(*route, sink, route.arcs@[i].wires@.last()));
    }
}

impl<'a> Cohort<'a> {
    /// Why a net was refused that is rebuilt among the slots.
    pub open spec fn net_refused(
        &self,
        slots: Seq<Option<Arc<NetRoute>>>,
        net: NetId,
        error: PnrError,
    ) -> bool {
        match error {
            PnrError::InvalidRoutingConstraint { net: reported, reason } => {
                &&& reported == net
                &&& self.is_broken(slots, net, reason@) || self.overfills(slots, net)
            },
            _ => {
                &&& error is MissingPlacement || error is Model
                &&& !net_bound(self.graph, &self.incumbent.placement, net)
                &&& self.net_halts(slots, net, error)
            },
        }
    }

    /// Searching for a route of the net among the slots ends with this error.
    pub open spec fn net_halts(
        &self,
        slots: Seq<Option<Arc<NetRoute>>>,
        net: NetId,
        error: PnrError,
    ) -> bool {
        search_halts(
            self.graph,
            &self.incumbent.placement,
            self.constraints,
            self.costs,
            self.delay_per_tile_ps,
            slots,
            net,
            locked_arcs(self.constraints, net),
            error,
        )
    }

    /// The text tells that what the search finds for the net is no tree: its
    /// immutable part is none, or it has no sink.
    pub open spec fn is_broken(
        &self,
        slots: Seq<Option<Arc<NetRoute>>>,
        net: NetId,
        reason: Seq<char>,
    ) -> bool {
        &&& exists|route: NetRoute|
            #[trigger] self.net_searched(slots, net, Some(route)) && !is_tree(route)
        &&& reason == "whole-net ECO replacement is not one complete driver-rooted tree"@
        &&& !consistent(locked_arcs(self.constraints, net))
            || self.graph.design.nets@[net.0 as int].sinks@.len() == 0
    }

    /// What the search finds for the net does not fit beside the others.
    pub open spec fn overfills(&self, slots: Seq<Option<Arc<NetRoute>>>, net: NetId) -> bool {
        exists|route: Arc<NetRoute>|
            self.net_searched(slots, net, Some(*route)) && !(#[trigger] within_capacity(
                self.graph.device,
                slots.update(net.0 as int, Some(route)),
            ))
    }

    /// Rebuilds one net among all others; `None` where no path with room is left.
    fn rebuild_one(
        &self,
        net: NetId,
        slots: &mut Vec<Option<Arc<NetRoute>>>,
        workspace: &mut RoutingWorkspace,
        overused_wires: &mut OrderedSet<usize>,
        overused_pips: &mut OrderedSet<usize>,
        Ghost(done): Ghost<Set<NetId>>,
    ) -> (result: Result<Option<bool>, PnrError>)
        requires
            self.wf(),
            self.selected@.contains(net),
            !done.contains(net),
            self.slots_state(old(slots)@, done),
            old(workspace).wf(),
            old(workspace).fits(self.graph.device),
            !old(workspace).resident_valid,
            slots_fit(old(slots)@, old(workspace).wire_count(), old(workspace).pip_count()),
            old(workspace).carries(old(slots)@, old(overused_wires), old(overused_pips)),
            old(workspace).unpriced(),
        ensures
            final(workspace).wf(),
            final(workspace).fits(self.graph.device),
            !final(workspace).resident_valid,
            final(workspace).search.same_estimates(&old(workspace).search),
            match result {
                Ok(Some(changed)) => {
                    &&& final(workspace).unpriced()
                    &&& self.net_searched(
                        old(slots)@,
                        net,
                        Some(*(final(slots)@[net.0 as int]->0)),
                    )
                    &&& self.slots_state(final(slots)@, done.insert(net))
                    &&& final(slots)@ == old(slots)@.update(
                        net.0 as int,
                        final(slots)@[net.0 as int],
                    )
                    &&& changed == !(final(slots)@[net.0 as int]->0).same_arcs(
                        &*self.incumbent.routes@[net.0 as int],
                    )
                    &&& slots_fit(
                        final(slots)@,
                        final(workspace).wire_count(),
                        final(workspace).pip_count(),
                    )
                    &&& final(workspace).carries(
                        final(slots)@,
                        final(overused_wires),
                        final(overused_pips),
                    )
                    &&& is_legal(final(workspace).wires)
                    &&& is_legal(final(workspace).pips)
                },
                Ok(None) => self.net_searched(old(slots)@, net, None),
                Err(error) => self.net_refused(old(slots)@, net, error),
            },
    {
        let placement = &self.incumbent.placement;
        proof {
            lemma_valid_costs_fit(self.graph, self.costs);
            assert(NetId(net.0 as int as usize) == net);
            assert(self.slot_state(net.0 as int, slots@[net.0 as int], done));
            assert(slot_fits(
                slots@[net.0 as int],
                workspace.wire_count(),
                workspace.pip_count(),
            ));
            if self.constraints.routes@.contains_key(net) {
                assert(route_fits(
                    self.graph,
                    placement,
                    self.constraints,
                    net,
                    *self.constraints.routes@[net],
                ));
            }
        }
        let earlier = self.fixed_slot(net);
        let fixed: Option<&NetRoute> = match &earlier {
            Some(route) => Some(&**route),
            None => None,
        };
        proof {
            assert(NetRouter::fixed_arcs(fixed) =~= locked_arcs(self.constraints, net));
        }
        let ghost room = *workspace;
        assert(is_room(self.graph.device, slots@, room));
        let replacement = match rebuild(
            &self.graph,
            placement,
            self.pin_wires,
            self.constraints,
            self.costs,
            self.delay_per_tile_ps,
            net,
            fixed,
            workspace,
        ) {
            Err(error) => {
                assert(self.net_halts(slots@, net, error));
                return Err(error);
            },
            Ok(None) => {
                assert(self.net_searched(slots@, net, None));
                return Ok(None);
            },
            Ok(Some(route)) => route,
        };
        assert(self.net_searched(slots@, net, Some(replacement)));
        proof {
            lemma_regrown_serves(
                self.graph,
                placement,
                self.constraints,
                room,
                net,
                &replacement,
            );
            lemma_served_reaches(self.graph, placement, self.constraints, net, &replacement);
        }
        let complete = match route_reaches_all_sinks(
            &self.graph,
            placement,
            self.pin_wires,
            &replacement,
        ) {
            Err(error) => {
                proof {
                    let sinks = self.graph.design.nets@[net.0 as int].sinks@;
                    let k = choose|k: int|
                        0 <= k < sinks.len() && crate::placement::pin_wire(
                            self.graph,
                            placement,
                            #[trigger] sinks[k],
                        ) is None;
                    assert(sink_reached(self.graph, placement, replacement, sinks[k]));
                }
                return Err(error);
            },
            Ok(complete) => complete,
        };
        if !complete || !route_is_tree(&replacement) {
            proof {
                if consistent(locked_arcs(self.constraints, net))
                    && self.graph.design.nets@[net.0 as int].sinks@.len() > 0 {
                    served_net_is_tree(self.graph, placement, self.constraints, net, replacement);
                }
            }
            return Err(
                PnrError::InvalidRoutingConstraint {
                    net,
                    reason: String::from_str(
                        "whole-net ECO replacement is not one complete driver-rooted tree",
                    ),
                },
            );
        }
        let changed = !replacement.equals(&self.incumbent.routes[net.0]);
        let later = Some(Arc::new(replacement));
        let ghost before = slots@;
        let ghost given = later;
        proof {
            lemma_arcs_slot_fits(self.graph, placement, net, given->0);
            assert(self.net_searched(before, net, Some(*(given->0))));
            let after = before.update(net.0 as int, given);
            assert(after == before.update(net.0 as int, Some(given->0)));
            lemma_sets_update(before, net.0 as int, given);
        }
        if !workspace.swap_slot(
            &earlier,
            &later,
            overused_wires,
            overused_pips,
            Ghost(before),
            Ghost(net.0 as int),
        ) {
            let reason = String::from_str("route ECO overuses more resources than can be counted");
            proof {
                lemma_full_overfills(self.graph.device, before, net.0 as int, given->0);
            }
            return Err(PnrError::InvalidRoutingConstraint { net, reason });
        }
        match validate_legal_eco_capacity(
            workspace,
            net,
            "route ECO overuses wire ",
            "route ECO overuses PIP ",
        ) {
            Err(error) => {
                proof {
                    lemma_legal_is_within(
                        *workspace,
                        self.graph.device,
                        before.update(net.0 as int, given),
                    );
                }
                return Err(error);
            },
            Ok(()) => {},
        }
        slots.set(net.0, later);
        proof {
            assert(slots@ =~= before.update(net.0 as int, given));
            assert forall|i: int| 0 <= i < slots@.len() implies self.slot_state(
                i,
                #[trigger] slots@[i],
                done.insert(net),
            ) by {
                assert(slots.len() == slots@.len());
                if i != net.0 {
                    assert(self.slot_state(i, before[i], done));
                    assert(NetId(i as usize) != net);
                }
            }
            assert forall|i: int| 0 <= i < slots@.len() implies slot_fits(
                #[trigger] slots@[i],
                workspace.wire_count(),
                workspace.pip_count(),
            ) by {
                if i != net.0 {
                    assert(slot_fits(before[i], workspace.wire_count(), workspace.pip_count()));
                }
            }
        }
        Ok(Some(changed))
    }
}

/// Hands the routes of full slots out.
fn collect_routes(slots: &Vec<Option<Arc<NetRoute>>>) -> (result: Vec<Arc<NetRoute>>)
    requires
        forall|i: int| 0 <= i < slots@.len() ==> #[trigger] slots@[i] is Some,
    ensures
        filled(result@) == slots@,
{
    let mut result: Vec<Arc<NetRoute>> = Vec::new();
    let mut index: usize = 0;
    while index < slots.len()
        invariant
            index <= slots@.len(),
            forall|i: int| 0 <= i < slots@.len() ==> #[trigger] slots@[i] is Some,
            result@.len() == index,
            forall|i: int| 0 <= i < index ==> Some(#[trigger] result@[i]) == slots@[i],
        decreases slots@.len() - index,
    {
        assert(slots@[index as int] is Some);
        if let Some(route) = &slots[index] {
            result.push(share(route));
        }
        index = index + 1;
    }
    assert(filled(result@) =~= slots@);
    result
}

/// Slots that hold these routes.
fn fill_slots(routes: &Vec<Arc<NetRoute>>) -> (result: Vec<Option<Arc<NetRoute>>>)
    ensures
        result@ == filled(routes@),
{
    let mut result: Vec<Option<Arc<NetRoute>>> = Vec::new();
    let mut index: usize = 0;
    while index < routes.len()
        invariant
            index <= routes@.len(),
            result@.len() == index,
            forall|i: int| 0 <= i < index ==> #[trigger] result@[i] == Some(routes@[i]),
        decreases routes@.len() - index,
    {
        result.push(Some(share(&routes[index])));
        index = index + 1;
    }
    assert(result@ =~= filled(routes@));
    result
}

impl<'a> Cohort<'a> {
    /// The net whose turn it is was refused.
    pub open spec fn refused(&self, error: PnrError) -> bool {
        exists|order: Seq<NetPriority>, chain: Seq<Seq<Option<Arc<NetRoute>>>>|
            #[trigger] self.is_rebuild(order, chain) && chain.len() <= order.len()
                && self.net_refused(chain.last(), order[chain.len() - 1].net, error)
    }

    /// Some rebuilt net differs from the incumbent.
    pub open spec fn differs(&self, slots: Seq<Option<Arc<NetRoute>>>, done: Set<NetId>) -> bool {
        exists|n: NetId| #[trigger]
            done.contains(n) && !(slots[n.0 as int]->0).same_arcs(
                &*self.incumbent.routes@[n.0 as int],
            )
    }

    /// Rebuilds every selected net, the most critical first.
    fn rebuild_selected(
        &self,
        slots: &mut Vec<Option<Arc<NetRoute>>>,
        workspace: &mut RoutingWorkspace,
        overused_wires: &mut OrderedSet<usize>,
        overused_pips: &mut OrderedSet<usize>,
    ) -> (result: Result<Option<bool>, PnrError>)
        requires
            self.wf(),
            self.selected@ != Set::<NetId>::empty(),
            self.slots_state(old(slots)@, Set::empty()),
            old(workspace).wf(),
            old(workspace).fits(self.graph.device),
            !old(workspace).resident_valid,
            slots_fit(old(slots)@, old(workspace).wire_count(), old(workspace).pip_count()),
            old(workspace).carries(old(slots)@, old(overused_wires), old(overused_pips)),
            old(workspace).unpriced(),
        ensures
            final(workspace).wf(),
            final(workspace).fits(self.graph.device),
            !final(workspace).resident_valid,
            final(workspace).search.same_estimates(&old(workspace).search),
            match result {
                Ok(Some(changed)) => {
                    &&& self.slots_state(final(slots)@, self.selected@)
                    &&& changed == self.differs(final(slots)@, self.selected@)
                    &&& within_capacity(self.graph.device, final(slots)@)
                    &&& self.rebuilds_to(final(slots)@)
                    &&& slots_fit(
                        final(slots)@,
                        final(workspace).wire_count(),
                        final(workspace).pip_count(),
                    )
                },
                Ok(None) => self.rebuild_stuck(),
                Err(error) => self.refused(error),
            },
    {
        let order = rebuild_order(self.graph.design(), self.costs, self.selected);
        let ghost mut done: Set<NetId> = Set::empty();
        let ghost mut chain: Seq<Seq<Option<Arc<NetRoute>>>> = seq![slots@];
        let mut changed = false;
        let mut index: usize = 0;
        while index < order.len()
            invariant
                index <= order@.len(),
                self.wf(),
                forall|i: int|
                    0 <= i < order@.len() ==> self.selected@.contains((#[trigger] order@[i]).net),
                forall|i: int, j: int|
                    0 <= i < j < order@.len() ==> (#[trigger] order@[i]).net != (
                    #[trigger] order@[j]).net,
                forall|n: NetId| #[trigger]
                    done.contains(n) <==> ranks_net(order@.take(index as int), n),
                self.is_rebuild(order@, chain),
                chain.len() == index + 1,
                chain.last() == slots@,
                workspace.unpriced(),
                self.slots_state(slots@, done),
                changed == self.differs(slots@, done),
                workspace.wf(),
                workspace.fits(self.graph.device),
                !workspace.resident_valid,
                workspace.search.same_estimates(&old(workspace).search),
                slots_fit(slots@, workspace.wire_count(), workspace.pip_count()),
                workspace.carries(slots@, overused_wires, overused_pips),
                index > 0 ==> is_legal(workspace.wires) && is_legal(workspace.pips),
            decreases order@.len() - index,
        {
            let net = order[index].net;
            let ghost earlier = done;
            let ghost before = slots@;
            proof {
                assert(self.selected@.contains(order@[index as int].net));
                if done.contains(net) {
                    let k = choose|k: int|
                        0 <= k < order@.take(index as int).len() && (#[trigger] order@.take(
                            index as int,
                        )[k]).net == net;
                    assert(order@[k].net != order@[index as int].net);
                }
                done = done.insert(net);
                let shorter = order@.take(index as int);
                let longer = order@.take(index + 1);
                assert forall|n: NetId| #[trigger] done.contains(n) <==> ranks_net(longer, n) by {
                    if ranks_net(shorter, n) {
                        let k = choose|k: int|
                            0 <= k < shorter.len() && (#[trigger] shorter[k]).net == n;
                        assert(longer[k].net == n);
                    }
                    if n == net {
                        assert(longer[index as int].net == n);
                    } else if ranks_net(longer, n) {
                        let k = choose|k: int|
                            0 <= k < longer.len() && (#[trigger] longer[k]).net == n;
                        assert(shorter[k].net == n);
                    }
                }
            }
            match self.rebuild_one(
                net,
                slots,
                workspace,
                overused_wires,
                overused_pips,
                Ghost(earlier),
            ) {
                Err(error) => {
                    assert(self.is_rebuild(order@, chain));
                    return Err(error);
                },
                Ok(None) => {
                    assert(self.is_rebuild(order@, chain));
                    return Ok(None);
                },
                Ok(Some(different)) => {
                    proof {
                        lemma_legal_is_within(*workspace, self.graph.device, slots@);
                        assert(self.slot_state(
                            net.0 as int,
                            slots@[net.0 as int],
                            done,
                        ));
                        assert(NetId((net.0 as int) as usize) == net);
                        self.lemma_rebuild_grows(order@, chain, slots@);
                        chain = chain.push(slots@);
                        let was = changed;
                        if was {
                            let n = choose|n: NetId| #[trigger]
                                earlier.contains(n) && !(before[n.0 as int]->0).same_arcs(
                                    &*self.incumbent.routes@[n.0 as int],
                                );
                            assert(done.contains(n));
                            assert(n != net);
                            assert(slots@[n.0 as int] == before[n.0 as int]);
                            assert(self.differs(slots@, done));
                        }
                        if different {
                            assert(done.contains(net));
                            assert(self.differs(slots@, done));
                        }
                        if self.differs(slots@, done) && !different {
                            let n = choose|n: NetId| #[trigger]
                                done.contains(n) && !(slots@[n.0 as int]->0).same_arcs(
                                    &*self.incumbent.routes@[n.0 as int],
                                );
                            assert(n != net);
                            assert(earlier.contains(n));
                            assert(slots@[n.0 as int] == before[n.0 as int]);
                            assert(self.differs(before, earlier));
                        }
                    }
                    if different {
                        changed = true;
                    }
                },
            }
            index = index + 1;
        }
        proof {
            assert(order@.take(index as int) =~= order@);
            assert forall|n: NetId| done.contains(n) <==> self.selected@.contains(n) by {
                if done.contains(n) {
                    let k = choose|k: int| 0 <= k < order@.len() && (#[trigger] order@[k]).net == n;
                    assert(self.selected@.contains(order@[k].net));
                }
            }
            assert(done =~= self.selected@);
            assert(exists|n: NetId| self.selected@.contains(n)) by {
                if forall|n: NetId| !self.selected@.contains(n) {
                    assert(self.selected@ =~= Set::<NetId>::empty());
                }
            }
            let n = choose|n: NetId| self.selected@.contains(n);
            assert(ranks_net(order@, n));
            lemma_legal_is_within(*workspace, self.graph.device, slots@);
            assert(self.is_rebuild(order@, chain));
        }
        Ok(Some(changed))
    }

    /// Whether each selected net of the incumbent holds its immutable part.
    fn holds_immutable(
        incumbent: &PnrResult,
        constraints: &RoutingConstraints,
        selected: &OrderedSet<NetId>,
    ) -> (result: Result<(), PnrError>)
        requires
            constraints.wf(),
            selected.wf(),
            forall|n: NetId| #[trigger] selected@.contains(n) ==> n.0 < incumbent.routes@.len(),
        ensures
            match result {
                Ok(()) => forall|n: NetId| #[trigger]
                    selected@.contains(n) ==> arcs_kept(
                        locked_arcs(constraints, n),
                        incumbent.routes@[n.0 as int].arcs@,
                    ),
                Err(error) => error matches PnrError::InvalidRoutingConstraint { net, reason }
                    && selected@.contains(net) && !arcs_kept(
                    locked_arcs(constraints, net),
                    incumbent.routes@[net.0 as int].arcs@,
                ) && reason@ == "incumbent route does not contain the immutable target tree"@,
            },
    {
        let ghost list = selected.ordered();
        let mut index: usize = 0;
        while index < selected.len()
            invariant
                index <= list.len(),
                list == selected.ordered(),
                constraints.wf(),
                selected.wf(),
                forall|n: NetId| #[trigger] selected@.contains(n) ==> n.0 < incumbent.routes@.len(),
                forall|i: int|
                    0 <= i < index ==> arcs_kept(
                        locked_arcs(constraints, #[trigger] list[i]),
                        incumbent.routes@[list[i].0 as int].arcs@,
                    ),
            decreases list.len() - index,
        {
            let net = selected.at(index);
            assert(selected@.contains(net));
            if let Some(fixed) = constraints.routes.get(net) {
                if !all_arcs_held(&fixed.arcs, &incumbent.routes[net.0].arcs) {
                    return Err(
                        PnrError::InvalidRoutingConstraint {
                            net,
                            reason: String::from_str(
                                "incumbent route does not contain the immutable target tree",
                            ),
                        },
                    );
                }
            }
            index = index + 1;
        }
        proof {
            assert forall|n: NetId| #[trigger] selected@.contains(n) implies arcs_kept(
                locked_arcs(constraints, n),
                incumbent.routes@[n.0 as int].arcs@,
            ) by {
                selected.membership(n);
                let i = list.index_of(n);
                assert(list[i] == n);
            }
        }
        Ok(())
    }
}

/// Whether every arc of the one list stands in the other.
fn all_arcs_held(
    kept: &Vec<crate::route::RouteArc>,
    arcs: &Vec<crate::route::RouteArc>,
) -> (result: bool)
    ensures
        result == arcs_kept(kept@, arcs@),
{
    let mut index: usize = 0;
    while index < kept.len()
        invariant
            index <= kept@.len(),
            forall|f: int| 0 <= f < index ==> holds_arc(arcs@, #[trigger] kept@[f]),
        decreases kept@.len() - index,
    {
        let mut found = false;
        let mut at: usize = 0;
        while at < arcs.len()
            invariant
                at <= arcs@.len(),
                index < kept@.len(),
                found ==> holds_arc(arcs@, kept@[index as int]),
                !found ==> forall|i: int|
                    0 <= i < at ==> !(#[trigger] arcs@[i]).same(&kept@[index as int]),
            decreases arcs@.len() - at,
        {
            if arcs[at].equals(&kept[index]) {
                assert(arcs@[at as int].same(&kept@[index as int]));
                found = true;
            }
            at = at + 1;
        }
        if !found {
            assert(!holds_arc(arcs@, kept@[index as int]));
            return false;
        }
        index = index + 1;
    }
    true
}

/// The least selected net that the design lacks.
pub open spec fn least_outside(design: &Design, selected: Set<NetId>, net: NetId) -> bool {
    &&& selected.contains(net)
    &&& net.0 >= design.nets@.len()
    &&& forall|m: NetId| #[trigger]
        selected.contains(m) && m.0 >= design.nets@.len() ==> net.0 <= m.0
}

/// The least selected net.
pub open spec fn least_selected(selected: Set<NetId>, net: NetId) -> bool {
    &&& selected.contains(net)
    &&& forall|m: NetId| #[trigger] selected.contains(m) ==> net.0 <= m.0
}

/// First selected net outside the design.
fn find_outside(design: &Design, selected: &OrderedSet<NetId>) -> (result: Option<NetId>)
    requires
        selected.wf(),
    ensures
        match result {
            Some(net) => least_outside(design, selected@, net),
            None => forall|n: NetId| #[trigger] selected@.contains(n) ==> n.0 < design.nets@.len(),
        },
{
    let mut index: usize = 0;
    while index < selected.len()
        invariant
            index <= selected.ordered().len(),
            selected.wf(),
            forall|i: int|
                0 <= i < index ==> (#[trigger] selected.ordered()[i]).0 < design.nets@.len(),
        decreases selected.ordered().len() - index,
    {
        let net = selected.at(index);
        if net.0 >= design.nets.len() {
            proof {
                selected.membership(net);
                assert(selected.ordered().contains(net));
                assert forall|m: NetId| #[trigger]
                    selected@.contains(m) && m.0 >= design.nets@.len() implies net.0 <= m.0 by {
                    selected.membership(m);
                    let i = selected.ordered().index_of(m);
                    assert(selected.ordered()[i] == m);
                    selected.lemma_position_order(index as int, i);
                }
            }
            return Some(net);
        }
        index = index + 1;
    }
    proof {
        assert forall|n: NetId| #[trigger] selected@.contains(n) implies n.0
            < design.nets@.len() by {
            selected.membership(n);
            let i = selected.ordered().index_of(n);
            assert(selected.ordered()[i] == n);
        }
    }
    None
}

/// Why the incumbent of a request was refused.
pub open spec fn cohort_defect(
    graph: UnifiedGraph<'_>,
    incumbent: &PnrResult,
    constraints: &RoutingConstraints,
    costs: &RoutingCosts,
    selected: Set<NetId>,
    error: PnrError,
) -> bool {
    if !constraints_fit(graph, &incumbent.placement, constraints) {
        constraint_defect(graph, &incumbent.placement, constraints, error)
    } else if !incumbent_fits(graph, &incumbent.placement, constraints, incumbent.routes@) {
        incumbent_defect(graph, &incumbent.placement, constraints, incumbent.routes@, error)
    } else if !costs_valid(graph, costs) {
        error is InvalidRoutingCosts
    } else {
        error matches PnrError::InvalidRoutingConstraint { net, reason } && selected.contains(net)
            && !arcs_kept(locked_arcs(constraints, net), incumbent.routes@[net.0 as int].arcs@)
            && reason@ == "incumbent route does not contain the immutable target tree"@
    }
}

/// Why a request was refused.
pub open spec fn request_defect(
    design: &Design,
    incumbent: &PnrResult,
    net_ids: Seq<NetId>,
    options: LegalRouteEcoOptions,
    error: PnrError,
) -> bool {
    if options.estimate_delay_per_tile_ps == 0 {
        error matches PnrError::InvalidRoutingCosts { reason } && reason@
            == "legal nets route ECO estimate must be positive"@
    } else if net_ids.len() == 0 {
        error matches PnrError::InvalidRoutingConstraint { net, reason } && net == NetId(0)
            && reason@ == "legal nets route ECO cohort is empty"@
    } else if incumbent.routes@.len() != design.nets@.len() {
        error matches PnrError::InvalidRoutingConstraint { net, reason } && least_selected(
            net_ids.to_set(),
            net,
        ) && reason@ == "incumbent contains "@ + decimal_text(incumbent.routes@.len())
            + " route trees for "@ + decimal_text(design.nets@.len()) + " logical nets"@
    } else {
        error matches PnrError::InvalidRoutingConstraint { net, reason } && least_outside(
            design,
            net_ids.to_set(),
            net,
        ) && reason@ == "legal nets route ECO net ID is outside the design"@
    }
}

/// Checks the request and, where it is sound, the incumbent.
fn check_cohort(
    graph: &UnifiedGraph<'_>,
    incumbent: &PnrResult,
    pin_wires: &PinWireCache,
    constraints: &RoutingConstraints,
    costs: &RoutingCosts,
    selected: &OrderedSet<NetId>,
) -> (result: Result<RoutingConstraints, PnrError>)
    requires
        graph.wf(),
        incumbent.placement.fits(graph.device),
        pin_wires.holds(*graph, &incumbent.placement),
        constraints.wf(),
        costs.wf(),
        selected.wf(),
        incumbent.routes@.len() == graph.design.nets@.len(),
        forall|i: int|
            0 <= i < incumbent.routes@.len() ==> (#[trigger] incumbent.routes@[i]).wf(),
        forall|n: NetId| #[trigger] selected@.contains(n) ==> n.0 < graph.design.nets@.len(),
    ensures
        match result {
            Ok(complete) => {
                &&& cohort_valid(*graph, incumbent, constraints, costs, selected@)
                &&& complete.wf()
                &&& crate::eco_stage::overlays(
                    constraints,
                    incumbent.routes@,
                    incumbent.routes@.len() as int,
                    &complete,
                )
            },
            Err(error) => {
                &&& !cohort_valid(*graph, incumbent, constraints, costs, selected@)
                &&& cohort_defect(*graph, incumbent, constraints, costs, selected@, error)
            },
        },
{
    match validate_routing_constraints(graph, &incumbent.placement, pin_wires, constraints) {
        Err(error) => {
            return Err(error);
        },
        Ok(()) => {},
    }
    let complete = match check_incumbent(
        graph,
        &incumbent.placement,
        pin_wires,
        constraints,
        &incumbent.routes,
    ) {
        Err(error) => {
            return Err(error);
        },
        Ok(complete) => complete,
    };
    match validate_routing_costs(graph, Some(costs)) {
        Err(error) => {
            return Err(error);
        },
        Ok(()) => {},
    }
    match Cohort::holds_immutable(incumbent, constraints, selected) {
        Err(error) => {
            return Err(error);
        },
        Ok(()) => {},
    }
    Ok(complete)
}

/// There is one route of each net, each at its net's index and fit for the
/// placement and the device.
pub open spec fn incumbent_valid(graph: UnifiedGraph<'_>, incumbent: &PnrResult) -> bool {
    let placement = &incumbent.placement;
    let routes = incumbent.routes@;
    &&& routes.len() == graph.design.nets@.len()
    &&& stored_in_order(routes)
    &&& forall|i: int|
        0 <= i < routes.len() ==> #[trigger] routes[i].is_fresh() && driver_wire(
            graph,
            placement,
            routes[i].net,
        ) is Some && arcs_fit(
            graph,
            placement,
            routes[i].net,
            driver_wire(graph, placement, routes[i].net)->0,
            routes[i].arcs@,
        )
}

/// Routes that fit with what is forbidden fit without it.
proof fn lemma_fits_is_valid(
    graph: UnifiedGraph<'_>,
    incumbent: &PnrResult,
    constraints: &RoutingConstraints,
)
    ensures
        incumbent_fits(graph, &incumbent.placement, constraints, incumbent.routes@)
            ==> incumbent_valid(graph, incumbent),
        incumbent_valid(graph, incumbent) && constraints.blocked_pips@ == Set::<PipId>::empty()
            && constraints.routes@ == Map::<NetId, Arc<NetRoute>>::empty() ==> incumbent_fits(
            graph,
            &incumbent.placement,
            constraints,
            incumbent.routes@,
        ),
{
    let placement = &incumbent.placement;
    let routes = incumbent.routes@;
    if incumbent_fits(graph, placement, constraints, routes) {
        assert forall|i: int| 0 <= i < routes.len() implies #[trigger] routes[i].is_fresh()
            && driver_wire(graph, placement, routes[i].net) is Some && arcs_fit(
            graph,
            placement,
            routes[i].net,
            driver_wire(graph, placement, routes[i].net)->0,
            routes[i].arcs@,
        ) by {
            assert(route_fits(graph, placement, constraints, routes[i].net, *routes[i]));
        }
    }
    if incumbent_valid(graph, incumbent) && constraints.blocked_pips@ == Set::<PipId>::empty()
        && constraints.routes@ == Map::<NetId, Arc<NetRoute>>::empty() {
        assert forall|i: int| 0 <= i < routes.len() implies route_fits(
            graph,
            placement,
            constraints,
            (#[trigger] routes[i]).net,
            *routes[i],
        ) by {
            assert(routes[i].is_fresh());
            assert(routes[i].net.0 == i);
        }
    }
}

/// Rebuilds the incumbent's occupancy and commits it, whatever was asked.
fn restore_legal_eco_workspace(
    design: &Design,
    device: &Device,
    incumbent: &PnrResult,
    workspace: &mut RoutingWorkspace,
)
    requires
        UnifiedGraph::of(design, device).wf(),
        incumbent.placement.fits(device),
        forall|i: int|
            0 <= i < incumbent.routes@.len() ==> (#[trigger] incumbent.routes@[i]).wf(),
        old(workspace).wf(),
    ensures
        final(workspace).wf(),
        old(workspace).is_ready() ==> final(workspace).is_ready(),
        old(workspace).fits(device) ==> final(workspace).search == old(workspace).search,
        !incumbent_valid(UnifiedGraph::of(design, device), incumbent) ==> *final(workspace)
            == *old(workspace),
        incumbent_valid(UnifiedGraph::of(design, device), incumbent) && countable(
            filled(incumbent.routes@),
            device.wires@.len() as int,
            device.pips@.len() as int,
        ) ==> is_restored(device, incumbent, *final(workspace)),
{
    if incumbent.routes.len() != design.nets.len() {
        return;
    }
    let graph = UnifiedGraph::new(design, device);
    let pin_wires = PinWireCache::build(&graph, &incumbent.placement);
    let free = RoutingConstraints::new();
    proof {
        lemma_fits_is_valid(graph, incumbent, &free);
    }
    if let Ok(complete) = check_incumbent(
        &graph,
        &incumbent.placement,
        &pin_wires,
        &free,
        &incumbent.routes,
    ) {
        if load_incumbent(
            &graph,
            &complete,
            Ghost(&incumbent.placement),
            Ghost(&free),
            &incumbent.routes,
            workspace,
        ) {
            workspace.commit_routes(&incumbent.routes);
        }
    }
}

/// The workspace holds the occupancy of the incumbent, no history, and no price.
pub open spec fn is_restored(
    device: &Device,
    incumbent: &PnrResult,
    workspace: RoutingWorkspace,
) -> bool {
    &&& workspace.fits(device)
    &&& workspace.resident_valid
    &&& workspace.resident_routes@ == filled(incumbent.routes@)
    &&& workspace.wires.counts(wire_sets(filled(incumbent.routes@)))
    &&& workspace.pips.counts(pip_sets(filled(incumbent.routes@)))
    &&& workspace.wires.history_at_most(0)
    &&& workspace.pips.history_at_most(0)
    &&& workspace.unpriced()
}

impl<'a> Cohort<'a> {
    /// The cohort holds these inputs.
    pub open spec fn is_of(
        &self,
        graph: UnifiedGraph<'_>,
        incumbent: &PnrResult,
        constraints: &RoutingConstraints,
        costs: &RoutingCosts,
        delay_per_tile_ps: u64,
        selected: Set<NetId>,
    ) -> bool {
        &&& self.graph == graph
        &&& self.incumbent == incumbent
        &&& self.constraints == constraints
        &&& self.costs == costs
        &&& self.delay_per_tile_ps == delay_per_tile_ps
        &&& self.selected@ == selected
    }

    /// Rebuilding finds no route of some net, or the routes that stand.
    pub open spec fn comes_to_nothing(&self) -> bool {
        ||| self.rebuild_stuck()
        ||| exists|slots: Seq<Option<Arc<NetRoute>>>| #[trigger]
            self.rebuilds_to(slots) && !self.differs(slots, self.selected@)
    }
}

/// Rebuilding the selected nets leads to the routes, or without routes to nothing.
pub open spec fn cohort_comes_to(
    graph: UnifiedGraph<'_>,
    incumbent: &PnrResult,
    constraints: &RoutingConstraints,
    costs: &RoutingCosts,
    delay_per_tile_ps: u64,
    selected: Set<NetId>,
    routes: Option<Seq<Arc<NetRoute>>>,
) -> bool {
    exists|cohort: Cohort<'_>|
        {
            &&& #[trigger] cohort.is_of(
                graph,
                incumbent,
                constraints,
                costs,
                delay_per_tile_ps,
                selected,
            )
            &&& match routes {
                Some(routes) => cohort.rebuilds_to(filled(routes)),
                None => cohort.comes_to_nothing(),
            }
        }
}

/// Why the cohort of a sound request could not be rebuilt.
pub open spec fn cohort_refused(
    graph: UnifiedGraph<'_>,
    incumbent: &PnrResult,
    constraints: &RoutingConstraints,
    costs: &RoutingCosts,
    delay_per_tile_ps: u64,
    selected: Set<NetId>,
    error: PnrError,
) -> bool {
    if within_capacity(graph.device, filled(incumbent.routes@)) {
        exists|cohort: Cohort<'_>|
            {
                &&& cohort.is_of(graph, incumbent, constraints, costs, delay_per_tile_ps, selected)
                &&& #[trigger] cohort.refused(error)
            }
    } else {
        error matches PnrError::InvalidRoutingConstraint { net, reason } && least_selected(
            selected,
            net,
        )
    }
}

/// A route that enters a full counter is above some capacity.
proof fn lemma_full_overfills(
    device: &Device,
    slots: Seq<Option<Arc<NetRoute>>>,
    index: int,
    route: Arc<NetRoute>,
)
    requires
        0 <= index < slots.len(),
        enters_full(slots, index, Some(route)),
        slot_fits(Some(route), device.wires@.len() as int, device.pips@.len() as int),
    ensures
        !within_capacity(device, slots.update(index, Some(route))),
{
    let slot = Some(route);
    lemma_sets_update(slots, index, slot);
    if exists|r: int|
        #[trigger] slot_wires(slot).contains(r) && users(wire_sets(slots), r) >= u16::MAX
            && !slot_wires(slots[index]).contains(r) {
        let r = choose|r: int|
            #[trigger] slot_wires(slot).contains(r) && users(wire_sets(slots), r) >= u16::MAX
                && !slot_wires(slots[index]).contains(r);
        lemma_users_update(wire_sets(slots), index, slot_wires(slot), r);
        assert(users(wire_sets(slots.update(index, slot)), r) > device.wires@[r].capacity);
    } else {
        let r = choose|r: int|
            #[trigger] slot_pips(slot).contains(r) && users(pip_sets(slots), r) >= u16::MAX
                && !slot_pips(slots[index]).contains(r);
        lemma_users_update(pip_sets(slots), index, slot_pips(slot), r);
        assert(users(pip_sets(slots.update(index, slot)), r) > device.pips@[r].capacity);
    }
}

/// Rebuilds the cohort among the immovable others.
fn build_candidate(
    cohort: &Cohort<'_>,
    complete: &RoutingConstraints,
    first_net: NetId,
    workspace: &mut RoutingWorkspace,
) -> (result: Result<Option<PnrResult>, PnrError>)
    requires
        cohort.wf(),
        cohort.selected@ != Set::<NetId>::empty(),
        least_selected(cohort.selected@, first_net),
        complete.wf(),
        crate::eco_stage::overlays(
            cohort.constraints,
            cohort.incumbent.routes@,
            cohort.incumbent.routes@.len() as int,
            complete,
        ),
        old(workspace).wf(),
    ensures
        final(workspace).wf(),
        final(workspace).fits(cohort.graph.device),
        old(workspace).is_ready() ==> final(workspace).is_ready(),
        old(workspace).fits(cohort.graph.device) ==> final(workspace).search.same_estimates(
            &old(workspace).search,
        ),
        match result {
            Ok(Some(candidate)) => {
                &&& within_capacity(cohort.graph.device, filled(cohort.incumbent.routes@))
                &&& is_cohort_candidate(
                    cohort.graph,
                    cohort.incumbent,
                    cohort.constraints,
                    cohort.selected@,
                    candidate,
                )
                &&& cohort.rebuilds_to(filled(candidate.routes@))
            },
            Ok(None) => {
                &&& within_capacity(cohort.graph.device, filled(cohort.incumbent.routes@))
                &&& cohort.comes_to_nothing()
            },
            Err(error) => cohort_refused(
                cohort.graph,
                cohort.incumbent,
                cohort.constraints,
                cohort.costs,
                cohort.delay_per_tile_ps,
                cohort.selected@,
                error,
            ),
        },
{
    let incumbent = cohort.incumbent;
    if !load_incumbent(
        &cohort.graph,
        complete,
        Ghost(&incumbent.placement),
        Ghost(cohort.constraints),
        &incumbent.routes,
        workspace,
    ) {
        proof {
            lemma_within_is_countable(cohort.graph.device, filled(incumbent.routes@));
        }
        return Err(
            PnrError::InvalidRoutingConstraint {
                net: first_net,
                reason: String::from_str("route ECO overuses more resources than can be counted"),
            },
        );
    }
    proof {
        lemma_legal_is_within(*workspace, cohort.graph.device, filled(incumbent.routes@));
    }
    match validate_legal_eco_capacity(
        workspace,
        first_net,
        "route ECO overuses wire ",
        "route ECO overuses PIP ",
    ) {
        Err(error) => {
            return Err(error);
        },
        Ok(()) => {},
    }
    let mut slots = fill_slots(&incumbent.routes);
    let mut overused_wires = workspace.wires.find_overused();
    let mut overused_pips = workspace.pips.find_overused();
    cohort.release_selected(&mut slots, workspace, &mut overused_wires, &mut overused_pips);
    let changed = match cohort.rebuild_selected(
        &mut slots,
        workspace,
        &mut overused_wires,
        &mut overused_pips,
    ) {
        Err(error) => {
            assert(cohort.is_of(
                cohort.graph,
                incumbent,
                cohort.constraints,
                cohort.costs,
                cohort.delay_per_tile_ps,
                cohort.selected@,
            ));
            assert(cohort.refused(error));
            return Err(error);
        },
        Ok(None) => {
            return Ok(None);
        },
        Ok(Some(changed)) => changed,
    };
    if !changed {
        assert(cohort.rebuilds_to(slots@));
        return Ok(None);
    }
    proof {
        assert forall|i: int| 0 <= i < slots@.len() implies #[trigger] slots@[i] is Some by {
            assert(cohort.slot_state(i, slots@[i], cohort.selected@));
        }
    }
    let routes = collect_routes(&slots);
    proof {
        assert(filled(routes@) =~= slots@);
        lemma_pips_known(
            routes@,
            cohort.graph.device.wires@.len() as int,
            cohort.graph.device.pips@.len() as int,
        );
    }
    let total_pips: usize = count_pips(&routes, cohort.graph.device().pips.len());
    proof {
        let chosen = cohort.selected@;
        assert(filled(routes@) =~= slots@);
        assert(routes@.len() == filled(routes@).len());
        assert forall|i: int| 0 <= i < routes@.len() && !chosen.contains(NetId(i as usize)) implies
        #[trigger] routes@[i] == incumbent.routes@[i] by {
            assert(filled(routes@)[i] == slots@[i]);
            assert(cohort.slot_state(i, slots@[i], chosen));
        }
        assert forall|n: NetId| #[trigger] chosen.contains(n) implies serves_net(
            cohort.graph,
            &incumbent.placement,
            cohort.constraints,
            n,
            *routes@[n.0 as int],
        ) && is_tree(*routes@[n.0 as int]) by {
            let i = n.0 as int;
            assert(filled(routes@)[i] == slots@[i]);
            assert(cohort.slot_state(i, slots@[i], chosen));
            assert(NetId(i as usize) == n);
        }
        let n = choose|n: NetId| #[trigger]
            chosen.contains(n) && !(slots@[n.0 as int]->0).same_arcs(
                &*incumbent.routes@[n.0 as int],
            );
        assert(filled(routes@)[n.0 as int] == slots@[n.0 as int]);
        assert(chosen.contains(n) && !routes@[n.0 as int].same_arcs(
            &*incumbent.routes@[n.0 as int],
        ));
    }
    Ok(Some(PnrResult { placement: incumbent.placement.copied(), routes, total_pips }))
}

/// Checks the request and rebuilds the cohort; an unsound request leaves the
/// workspace alone.
fn legal_nets_route_eco_candidate(
    design: &Design,
    device: &Device,
    incumbent: &PnrResult,
    routing_constraints: &RoutingConstraints,
    routing_costs: &RoutingCosts,
    net_ids: &[NetId],
    options: LegalRouteEcoOptions,
    workspace: &mut RoutingWorkspace,
) -> (result: Result<Option<PnrResult>, PnrError>)
    requires
        UnifiedGraph::of(design, device).wf(),
        incumbent.placement.fits(device),
        forall|i: int|
            0 <= i < incumbent.routes@.len() ==> (#[trigger] incumbent.routes@[i]).wf(),
        routing_constraints.wf(),
        routing_costs.wf(),
        old(workspace).wf(),
    ensures
        final(workspace).wf(),
        old(workspace).fits(device) ==> final(workspace).fits(device),
        old(workspace).is_ready() ==> final(workspace).is_ready(),
        old(workspace).fits(device) ==> final(workspace).search.same_estimates(
            &old(workspace).search,
        ),
        !(cohort_asked(design, incumbent, net_ids@, options) && cohort_valid(
            UnifiedGraph::of(design, device),
            incumbent,
            routing_constraints,
            routing_costs,
            net_ids@.to_set(),
        )) ==> *final(workspace) == *old(workspace),
        cohort_answer(
            UnifiedGraph::of(design, device),
            incumbent,
            routing_constraints,
            routing_costs,
            net_ids@,
            options,
            result,
        ),
{
    if options.estimate_delay_per_tile_ps == 0 {
        return Err(
            PnrError::InvalidRoutingCosts {
                reason: String::from_str("legal nets route ECO estimate must be positive"),
            },
        );
    }
    let selected: OrderedSet<NetId> = OrderedSet::from_slice(net_ids);
    if selected.is_empty() {
        proof {
            if net_ids@.len() > 0 {
                assert(net_ids@.contains(net_ids@[0]));
                assert(selected@.contains(net_ids@[0]));
                selected.membership(net_ids@[0]);
            }
        }
        return Err(
            PnrError::InvalidRoutingConstraint {
                net: NetId(0),
                reason: String::from_str("legal nets route ECO cohort is empty"),
            },
        );
    }
    let first_net = selected.at(0);
    proof {
        selected.membership(first_net);
        assert(selected.ordered().contains(selected.ordered()[0]));
        assert(selected@.contains(first_net));
        assert forall|m: NetId| #[trigger] selected@.contains(m) implies first_net.0 <= m.0 by {
            selected.membership(m);
            let i = selected.ordered().index_of(m);
            assert(selected.ordered()[i] == m);
            selected.lemma_position_order(0, i);
        }
    }
    if incumbent.routes.len() != design.nets.len() {
        return Err(
            PnrError::InvalidRoutingConstraint {
                net: first_net,
                reason: twice_numbered(
                    "incumbent contains ",
                    incumbent.routes.len() as u64,
                    " route trees for ",
                    design.nets.len() as u64,
                    " logical nets",
                ),
            },
        );
    }
    if let Some(net) = find_outside(design, &selected) {
        proof {
            let i = net_ids@.index_of(net);
            assert(net_ids@[i] == net);
        }
        return Err(
            PnrError::InvalidRoutingConstraint {
                net,
                reason: String::from_str("legal nets route ECO net ID is outside the design"),
            },
        );
    }
    proof {
        assert forall|i: int| 0 <= i < net_ids@.len() implies (#[trigger] net_ids@[i]).0
            < design.nets@.len() by {
            assert(net_ids@.contains(net_ids@[i]));
            assert(selected@.contains(net_ids@[i]));
        }
    }
    let graph = UnifiedGraph::new(design, device);
    let pin_wires = PinWireCache::build(&graph, &incumbent.placement);
    let complete = match check_cohort(
        &graph,
        incumbent,
        &pin_wires,
        routing_constraints,
        routing_costs,
        &selected,
    ) {
        Err(error) => {
            return Err(error);
        },
        Ok(complete) => complete,
    };
    let cohort = Cohort {
        graph,
        incumbent,
        pin_wires: &pin_wires,
        constraints: routing_constraints,
        costs: routing_costs,
        delay_per_tile_ps: options.estimate_delay_per_tile_ps,
        selected: &selected,
    };
    assert(cohort.is_of(
        graph,
        incumbent,
        routing_constraints,
        routing_costs,
        options.estimate_delay_per_tile_ps,
        net_ids@.to_set(),
    ));
    build_candidate(&cohort, &complete, first_net, workspace)
}

/// Builds one conflict-free route candidate for a cohort of whole nets.
///
/// All movable occupancy of every selected net is released simultaneously.
/// The nets are then rebuilt in descending maximum sink criticality, with
/// stable net IDs breaking ties. Every unselected net and each already rebuilt
/// cohort member remains hard occupancy. Target-owned immutable topology is
/// retained as each net's fixed seed tree, so global-clock and other
/// architecture routes cannot be displaced by this ECO.
///
/// `net_ids` must contain at least one net. Duplicate IDs are accepted and
/// treated as one cohort member. Candidate construction is transactional:
/// `incumbent` is immutable and the reusable workspace is restored to its
/// incumbent occupancy before every return. The caller is responsible for
/// whole-design timing analysis and may commit the returned [`PnrResult`] only
/// when its exact objective strictly improves.
///
/// # Errors
///
/// Returns an invalid-model, route, cost, placement, or restriction error.
pub fn legal_nets_route_eco_candidate_with_workspace(
    design: &Design,
    device: &Device,
    incumbent: &PnrResult,
    routing_constraints: &RoutingConstraints,
    routing_costs: &RoutingCosts,
    net_ids: &[NetId],
    options: LegalRouteEcoOptions,
    workspace: &mut RoutingWorkspace,
) -> (result: Result<Option<PnrResult>, PnrError>)
    requires
        UnifiedGraph::of(design, device).wf(),
        incumbent.placement.fits(device),
        forall|i: int|
            0 <= i < incumbent.routes@.len() ==> (#[trigger] incumbent.routes@[i]).wf(),
        routing_constraints.wf(),
        routing_costs.wf(),
        old(workspace).wf(),
    ensures
        final(workspace).wf(),
        old(workspace).is_ready() ==> final(workspace).is_ready(),
        old(workspace).fits(device) ==> final(workspace).search.same_estimates(
            &old(workspace).search,
        ),
        cohort_outcome(
            UnifiedGraph::of(design, device),
            incumbent,
            routing_constraints,
            routing_costs,
            net_ids@,
            options,
            *old(workspace),
            *final(workspace),
            result,
        ),
{
    let result = legal_nets_route_eco_candidate(
        design,
        device,
        incumbent,
        routing_constraints,
        routing_costs,
        net_ids,
        options,
        workspace,
    );
    proof {
        lemma_fits_is_valid(UnifiedGraph::of(design, device), incumbent, routing_constraints);
    }
    restore_legal_eco_workspace(design, device, incumbent, workspace);
    result
}

/// What rebuilding a cohort answers: a candidate or nothing for a sound
/// request and a legal incumbent, else an error that tells the cause.
pub open spec fn cohort_answer(
    graph: UnifiedGraph<'_>,
    incumbent: &PnrResult,
    constraints: &RoutingConstraints,
    costs: &RoutingCosts,
    net_ids: Seq<NetId>,
    options: LegalRouteEcoOptions,
    result: Result<Option<PnrResult>, PnrError>,
) -> bool {
    let selected = net_ids.to_set();
    let asked = cohort_asked(graph.design, incumbent, net_ids, options);
    let valid = cohort_valid(graph, incumbent, constraints, costs, selected);
    match result {
        Ok(candidate) => {
            &&& asked
            &&& valid
            &&& within_capacity(graph.device, filled(incumbent.routes@))
            &&& candidate matches Some(candidate) ==> is_cohort_candidate(
                graph,
                incumbent,
                constraints,
                selected,
                candidate,
            )
            &&& cohort_comes_to(
                graph,
                incumbent,
                constraints,
                costs,
                options.estimate_delay_per_tile_ps,
                selected,
                match candidate {
                    Some(candidate) => Some(candidate.routes@),
                    None => None,
                },
            )
        },
        Err(error) => if !asked {
            request_defect(graph.design, incumbent, net_ids, options, error)
        } else if !valid {
            cohort_defect(graph, incumbent, constraints, costs, selected, error)
        } else {
            cohort_refused(
                graph,
                incumbent,
                constraints,
                costs,
                options.estimate_delay_per_tile_ps,
                selected,
                error,
            )
        },
    }
}

/// What rebuilding a cohort gives: the answer, and on every return the
/// workspace restored to a valid incumbent whose users can be counted.
pub open spec fn cohort_outcome(
    graph: UnifiedGraph<'_>,
    incumbent: &PnrResult,
    constraints: &RoutingConstraints,
    costs: &RoutingCosts,
    net_ids: Seq<NetId>,
    options: LegalRouteEcoOptions,
    before: RoutingWorkspace,
    after: RoutingWorkspace,
    result: Result<Option<PnrResult>, PnrError>,
) -> bool {
    &&& cohort_answer(graph, incumbent, constraints, costs, net_ids, options, result)
    &&& if incumbent_valid(graph, incumbent) {
        countable(
            filled(incumbent.routes@),
            graph.device.wires@.len() as int,
            graph.device.pips@.len() as int,
        ) ==> is_restored(graph.device, incumbent, after)
    } else {
        after == before
    }
}

/// Cohorts with the same members come to the same: neither the order nor the
/// number of times in which a net is named matters.
pub proof fn cohort_depends_on_the_set_alone(
    graph: UnifiedGraph<'_>,
    incumbent: &PnrResult,
    constraints: &RoutingConstraints,
    costs: &RoutingCosts,
    a: Seq<NetId>,
    b: Seq<NetId>,
    options: LegalRouteEcoOptions,
    before: RoutingWorkspace,
    after: RoutingWorkspace,
    result: Result<Option<PnrResult>, PnrError>,
)
    requires
        a.to_set() == b.to_set(),
    ensures
        cohort_outcome(
            graph,
            incumbent,
            constraints,
            costs,
            a,
            options,
            before,
            after,
            result,
        ) == cohort_outcome(
            graph,
            incumbent,
            constraints,
            costs,
            b,
            options,
            before,
            after,
            result,
        ),
{
    lemma_same_request(graph.design, incumbent, a, b, options);
    lemma_same_request(graph.design, incumbent, b, a, options);
}

/// What the one list meets, another of the same members meets.
pub(crate) proof fn lemma_same_request(
    design: &Design,
    incumbent: &PnrResult,
    a: Seq<NetId>,
    b: Seq<NetId>,
    options: LegalRouteEcoOptions,
)
    requires
        a.to_set() == b.to_set(),
    ensures
        a.len() == 0 ==> b.len() == 0,
        cohort_asked(design, incumbent, a, options) ==> cohort_asked(
            design,
            incumbent,
            b,
            options,
        ),
{
    assert forall|i: int| 0 <= i < b.len() implies a.contains(#[trigger] b[i]) by {
        assert(b.contains(b[i]));
        assert(b.to_set().contains(b[i]));
        assert(a.to_set().contains(b[i]));
    }
    if b.len() > 0 {
        assert(a.contains(b[0]));
    }
    if a.len() > 0 {
        assert(a.contains(a[0]));
        assert(a.to_set().contains(a[0]));
        assert(b.to_set().contains(a[0]));
    }
}

/// Builds one whole-net, conflict-free route candidate.
///
/// This is the single-net form of
/// [`legal_nets_route_eco_candidate_with_workspace`].
///
/// # Errors
///
/// Returns an invalid-model, route, cost, placement, or restriction error.
pub fn legal_net_route_eco_candidate_with_workspace(
    design: &Design,
    device: &Device,
    incumbent: &PnrResult,
    routing_constraints: &RoutingConstraints,
    routing_costs: &RoutingCosts,
    net_id: NetId,
    options: LegalRouteEcoOptions,
    workspace: &mut RoutingWorkspace,
) -> (result: Result<Option<PnrResult>, PnrError>)
    requires
        UnifiedGraph::of(design, device).wf(),
        incumbent.placement.fits(device),
        forall|i: int|
            0 <= i < incumbent.routes@.len() ==> (#[trigger] incumbent.routes@[i]).wf(),
        routing_constraints.wf(),
        routing_costs.wf(),
        old(workspace).wf(),
    ensures
        final(workspace).wf(),
        old(workspace).is_ready() ==> final(workspace).is_ready(),
        old(workspace).fits(device) ==> final(workspace).search.same_estimates(
            &old(workspace).search,
        ),
        cohort_outcome(
            UnifiedGraph::of(design, device),
            incumbent,
            routing_constraints,
            routing_costs,
            seq![net_id],
            options,
            *old(workspace),
            *final(workspace),
            result,
        ),
{
    let nets: Vec<NetId> = vec![net_id];
    assert(nets@ =~= seq![net_id]);
    legal_nets_route_eco_candidate_with_workspace(
        design,
        device,
        incumbent,
        routing_constraints,
        routing_costs,
        nets.as_slice(),
        options,
        workspace,
    )
}

} // verus!
