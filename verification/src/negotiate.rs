//! Negotiated-congestion routing of every net.

use std::sync::Arc;

use vstd::prelude::*;

use crate::conflicts::{
    dirty_net_set, dirty_nets, dirty_ok, is_unrouted, routing_congestion_objective,
    unrouted_connections,
};
use crate::cost::negotiated_price;
use crate::course::{
    is_grown, is_noted, is_objective, is_release, net_events, present_weight, price_holds, prices_hold,
    recurs_at, slot_arcs, slot_released, sweep_events, NegotiationPoint,
};
use crate::cycles::{
    members, order_entry, prioritize_cycle_connections, released_since, routing_order,
    RoutingConflictCycleDetector, RoutingConflictState, RoutingOrderEntry,
};
use crate::error::PnrError;
use crate::model::{CellPinId, Connection, Design, NetId};
use crate::negotiation::{lemma_same_counts, Negotiation};
use crate::net_routing::holds_arc;
use crate::net_state::{arcs_kept, locked_arcs};
use crate::occupancy::{
    as_count, lemma_users_range, pip_sets, slot_pips, slot_wires, users, wire_sets, ResourceTable,
    HISTORY_STEP,
};
use crate::ordered::{nondecreasing, sort_keys, OrderedKey, OrderedSet};
use crate::owners::{OwnerIndex, ResourceClass};
use crate::ownership::are_claimed;
use crate::release::net_is_dirty;
use crate::route::NetRoute;
use crate::routing_constraints::RoutingConstraints;
use crate::routing_costs::{share, MAX_ROUTING_ITERATIONS};
use crate::search::RouteSearch;
use crate::slots::enters_full;
use crate::stages::{
    is_counted, is_ripup, lemma_ripup_grows, repairs, rips_up, Stage,
};
use crate::trial::Trial;
use crate::victims::sink_locked;
use crate::workspace::{countable, filled, lemma_slots_wf, slot_fits, slots_fit, RoutingWorkspace};

verus! {

/// Deterministic progress event from negotiated routing.
#[derive(Clone, Copy, Debug, PartialEq, Eq, Structural)]
pub enum RoutingProgress {
    /// One iteration is about to reroute its conflicting nets.
    Iteration {
        /// Zero-based iteration number.
        iteration: u32,
        /// Nets selected for this iteration.
        nets: usize,
    },
    /// One logical net is about to be routed.
    Net {
        /// Zero-based iteration number.
        iteration: u32,
        /// One-based ordinal within this iteration.
        ordinal: usize,
        /// Nets selected for this iteration.
        total: usize,
        /// Logical net being routed.
        net: NetId,
    },
}

/// The second list begins with the first.
pub open spec fn extends_log(earlier: Seq<RoutingProgress>, later: Seq<RoutingProgress>) -> bool {
    earlier.len() <= later.len() && later.take(earlier.len() as int) == earlier
}

/// A longer list still begins with what a list began with.
proof fn lemma_log_push(
    first: Seq<RoutingProgress>,
    earlier: Seq<RoutingProgress>,
    event: RoutingProgress,
)
    requires
        extends_log(first, earlier),
    ensures
        extends_log(first, earlier.push(event)),
        earlier.len() > first.len() ==> earlier.push(event)[first.len() as int]
            == earlier[first.len() as int],
{
    assert(earlier.push(event).take(first.len() as int) =~= earlier.take(first.len() as int));
}

/// Every net reaches each sink or has it listed.
pub open spec fn all_pending(
    trial: Trial<'_>,
    routes: Seq<Option<Arc<NetRoute>>>,
    dirty: Set<Connection>,
) -> bool {
    forall|i: int|
        0 <= i < routes.len() ==> trial.slot_pending(i, #[trigger] routes[i], dirty)
}

/// Every net has a route to each of its sinks.
pub open spec fn all_done(trial: Trial<'_>, routes: Seq<Option<Arc<NetRoute>>>) -> bool {
    forall|i: int| 0 <= i < routes.len() ==> trial.slot_done(i, #[trigger] routes[i])
}

/// Every net has a sink or an immutable route.
pub open spec fn nets_have_work(design: &Design, constraints: &RoutingConstraints) -> bool {
    forall|i: int|
        0 <= i < design.nets@.len() ==> (#[trigger] design.nets@[i]).sinks@.len() > 0
            || constraints.routes@.contains_key(NetId(i as usize))
}

/// A net without a listed sink reaches every sink.
proof fn lemma_clean_is_done(
    trial: Trial<'_>,
    index: int,
    slot: Option<Arc<NetRoute>>,
    dirty: Set<Connection>,
)
    requires
        nets_have_work(trial.graph.design, trial.constraints),
        0 <= index < trial.net_count(),
        trial.slot_ok(index, slot),
        trial.slot_pending(index, slot, dirty),
        !net_is_dirty(dirty, NetId(index as usize)),
    ensures
        trial.slot_done(index, slot),
{
    let net = NetId(index as usize);
    let sinks = trial.graph.design.nets@[index].sinks@;
    assert(trial.graph.design.nets.len() == trial.graph.design.nets@.len());
    assert(net.0 == index);
    assert forall|k: int| 0 <= k < sinks.len() implies trial.slot_reaches(slot, #[trigger] sinks[k]) by {
        if dirty.contains(Connection { net, sink: sinks[k] }) {
            assert(net_is_dirty(dirty, net));
        }
        assert(trial.slot_reaches(slot, trial.graph.design.nets@[index].sinks@[k])
            || dirty.contains(
            Connection { net: NetId(index as usize), sink: trial.graph.design.nets@[index].sinks@[k] },
        ));
    }
    if sinks.len() > 0 {
        assert(trial.slot_reaches(slot, sinks[0]));
    }
    assert(slot is Some);
    let route = slot->0;
    assert forall|k: int| 0 <= k < trial.graph.design.nets@[net.0 as int].sinks@.len() implies route.reaches(
        #[trigger] trial.graph.design.nets@[net.0 as int].sinks@[k],
    ) by {
        assert(trial.slot_reaches(slot, sinks[k]));
    }
}

impl Negotiation {
    /// Releases every dirty connection.
    fn release_dirty(
        &mut self,
        trial: &Trial<'_>,
        workspace: &mut RoutingWorkspace,
        nets: &OrderedSet<usize>,
        dirty: &OrderedSet<Connection>,
    )
        requires
            trial.wf(),
            old(self).balanced(*old(workspace), *trial),
            nets.wf(),
            nets@ == dirty_net_set(dirty@),
            dirty.wf(),
            dirty_ok(*trial, dirty@),
            all_pending(*trial, old(self).routes@, dirty@),
        ensures
            final(self).balanced(*final(workspace), *trial),
            final(workspace).wires.history == old(workspace).wires.history,
            final(workspace).pips.history == old(workspace).pips.history,
            final(workspace).search == old(workspace).search,
            all_pending(*trial, final(self).routes@, dirty@),
            is_release(old(self).routes@, dirty@, final(self).routes@),
            dirty@ == Set::<Connection>::empty() ==> final(self).routes@ == old(self).routes@,
            rips_up(
                trial.graph.device,
                dirty@,
                old(self).stage(*old(workspace)),
                final(self).stage(*final(workspace)),
            ),
    {
        let ghost mut stages: Seq<Stage> = seq![self.stage(*workspace)];
        let mut index: usize = 0;
        proof {
            if dirty@ == Set::<Connection>::empty() {
                assert forall|n: usize| !nets@.contains(n) by {}
                if nets.ordered().len() > 0 {
                    assert(nets.ordered().contains(nets.ordered()[0]));
                    nets.membership(nets.ordered()[0]);
                }
            }
        }
        while index < nets.len()
            invariant
                index <= nets.ordered().len(),
                trial.wf(),
                self.balanced(*workspace, *trial),
                nets.wf(),
                nets@ == dirty_net_set(dirty@),
                dirty.wf(),
                dirty_ok(*trial, dirty@),
                all_pending(*trial, self.routes@, dirty@),
                workspace.wires.history == old(workspace).wires.history,
                workspace.pips.history == old(workspace).pips.history,
                workspace.search == old(workspace).search,
                nets.ordered().len() == 0 ==> self.routes@ == old(self).routes@,
                dirty@ == Set::<Connection>::empty() ==> nets.ordered().len() == 0,
                self.routes@.len() == old(self).routes@.len(),
                is_ripup(trial.graph.device, dirty@, nets.ordered(), stages),
                stages.len() == index + 1,
                stages[0] == old(self).stage(*old(workspace)),
                stages.last() == self.stage(*workspace),
                forall|i: int|
                    0 <= i < self.routes@.len() ==> if nets.ordered().take(
                        index as int,
                    ).contains(i as usize) {
                        slot_released(old(self).routes@[i], dirty@, #[trigger] self.routes@[i])
                    } else {
                        self.routes@[i] == old(self).routes@[i]
                    },
            decreases nets.ordered().len() - index,
        {
            let net: usize = nets.at(index);
            proof {
                assert(self.routes.len() == self.routes@.len());
                if nets.ordered().take(index as int).contains(net) {
                    let k = nets.ordered().take(index as int).index_of(net);
                    assert(nets.ordered()[k].rank() < nets.ordered()[index as int].rank());
                }
                assert(net_is_dirty(dirty@, NetId(net)));
                let sink = choose|sink: CellPinId| #[trigger]
                    dirty@.contains(Connection { net: NetId(net), sink });
                assert(Connection { net: NetId(net), sink }.net.0 < trial.net_count());
            }
            let ghost before = self.routes@;
            assert(trial.slot_pending(net as int, before[net as int], dirty@));
            self.rip_up(trial, workspace, net, dirty);
            proof {
                lemma_ripup_grows(
                    trial.graph.device,
                    dirty@,
                    nets.ordered(),
                    stages,
                    self.stage(*workspace),
                );
                stages = stages.push(self.stage(*workspace));
                assert forall|i: int| 0 <= i < self.routes@.len() implies trial.slot_pending(
                    i,
                    #[trigger] self.routes@[i],
                    dirty@,
                ) by {
                    if i != net {
                        assert(trial.slot_pending(i, before[i], dirty@));
                        assert(self.routes@[i] == before[i]);
                    }
                }
                let shorter = nets.ordered().take(index as int);
                let longer = nets.ordered().take(index + 1);
                assert(longer =~= shorter.push(net));
                assert forall|i: int| 0 <= i < self.routes@.len() implies if longer.contains(
                    i as usize,
                ) {
                    slot_released(old(self).routes@[i], dirty@, #[trigger] self.routes@[i])
                } else {
                    self.routes@[i] == old(self).routes@[i]
                } by {
                    let n = i as usize;
                    if shorter.contains(n) {
                        let k = shorter.index_of(n);
                        assert(longer[k] == n);
                    }
                    if n == net {
                        assert(longer[index as int] == n);
                    } else {
                        if longer.contains(n) {
                            let k = longer.index_of(n);
                            assert(shorter[k] == n);
                        }
                        assert(self.routes@[i] == before[i]);
                    }
                }
            }
            index = index + 1;
        }
        proof {
            assert(nets.ordered().take(index as int) =~= nets.ordered());
            assert(nets.ordered().to_set() =~= nets@) by {
                assert forall|n: usize| nets.ordered().to_set().contains(n) == nets@.contains(
                    n,
                ) by {
                    nets.membership(n);
                }
            }
            assert(is_ripup(trial.graph.device, dirty@, nets.ordered(), stages));
            assert forall|i: int| 0 <= i < self.routes@.len() implies if net_is_dirty(
                dirty@,
                NetId(i as usize),
            ) {
                slot_released(old(self).routes@[i], dirty@, #[trigger] self.routes@[i])
            } else {
                self.routes@[i] == old(self).routes@[i]
            } by {
                nets.membership(i as usize);
                assert(nets@.contains(i as usize) <==> net_is_dirty(dirty@, NetId(i as usize)));
            }
        }
    }

    /// Routes every net of an iteration.
    fn route_listed(
        &mut self,
        trial: &Trial<'_>,
        workspace: &mut RoutingWorkspace,
        order: &Vec<RoutingOrderEntry>,
        iteration: u32,
        present: u32,
        total: usize,
        dirty: &OrderedSet<Connection>,
        progress: &mut Vec<RoutingProgress>,
        Ghost(base): Ghost<RouteSearch>,
        Ghost(point): Ghost<NegotiationPoint>,
    ) -> (result: Result<(), PnrError>)
        requires
            trial.wf(),
            nets_have_work(trial.graph.design, trial.constraints),
            old(self).balanced(*old(workspace), *trial),
            all_pending(*trial, old(self).routes@, dirty@),
            forall|i: int| 0 <= i < order@.len() ==> (#[trigger] order@[i]).index < trial.net_count(),
            forall|n: usize|
                n < trial.net_count() && #[trigger] net_is_dirty(dirty@, NetId(n)) ==> exists|i: int|
                    0 <= i < order@.len() && (#[trigger] order@[i]).index == n,
            old(workspace).wires.history_at_most(32 * HISTORY_STEP),
            old(workspace).pips.history_at_most(32 * HISTORY_STEP),
            present <= 4096,
            present == present_weight(iteration as int),
            trial.is_market(
                base,
                point,
                present as int,
                old(self).routes@,
                *old(workspace),
            ),
            trial.is_sweep(
                base,
                iteration as int,
                point,
                order@,
                seq![old(self).stage(*old(workspace))],
            ),
            total == dirty_net_set(point.dirty).len(),
            old(progress)@.len() > 0,
            old(progress)@.last() == (RoutingProgress::Iteration { iteration, nets: total }),
        ensures
            final(workspace).wf(),
            final(workspace).fits(trial.graph.device),
            !final(workspace).resident_valid,
            final(workspace).wires.history == old(workspace).wires.history,
            final(workspace).pips.history == old(workspace).pips.history,
            final(workspace).search.same_estimates(&old(workspace).search),
            extends_log(old(progress)@, final(progress)@),
            match result {
                Ok(()) => {
                    &&& final(self).balanced(*final(workspace), *trial)
                    &&& all_done(*trial, final(self).routes@)
                    &&& order@.len() == 0 ==> final(self).routes@ == old(self).routes@
                    &&& exists|events: Seq<RoutingProgress>|
                        #[trigger] trial.sweeps(
                            base,
                            iteration as int,
                            point,
                            final(self).stage(*final(workspace)),
                            events,
                        ) && announced(old(progress)@, events, final(progress)@)
                },
                Err(error) => {
                    &&& trial.failed(error)
                    &&& order@.len() > 0
                    &&& exists|events: Seq<RoutingProgress>|
                        #[trigger] trial.stops(base, iteration as int, point, error, events)
                            && announced(old(progress)@, events, final(progress)@)
                },
            },
    {
        let mut index: usize = 0;
        let ghost log = progress@;
        let ghost mut chain: Seq<Stage> = seq![self.stage(*workspace)];
        proof {
            assert(log.take(log.len() as int) =~= log);
            assert(log + net_events(iteration, total, order@, 0) =~= log);
        }
        while index < order.len()
            invariant
                index <= order@.len(),
                trial.wf(),
                self.balanced(*workspace, *trial),
                forall|i: int|
                    0 <= i < order@.len() ==> (#[trigger] order@[i]).index < trial.net_count(),
                forall|i: int|
                    0 <= i < self.routes@.len() ==> trial.slot_pending(
                        i,
                        #[trigger] self.routes@[i],
                        dirty@,
                    ) || trial.slot_done(i, self.routes@[i]),
                forall|k: int|
                    0 <= k < index ==> trial.slot_done(
                        (#[trigger] order@[k]).index as int,
                        self.routes@[order@[k].index as int],
                    ),
                workspace.wires.history_at_most(32 * HISTORY_STEP),
                workspace.pips.history_at_most(32 * HISTORY_STEP),
                workspace.wires.history == old(workspace).wires.history,
                workspace.pips.history == old(workspace).pips.history,
                workspace.search.same_estimates(&old(workspace).search),
                present <= 4096,
                extends_log(log, progress@),
                log == old(progress)@,
                progress@ == log + net_events(iteration, total, order@, index as int),
                total == dirty_net_set(point.dirty).len(),
                log.len() > 0,
                log.last() == (RoutingProgress::Iteration { iteration, nets: total }),
                order@.len() == 0 ==> self.routes@ == old(self).routes@,
                present == present_weight(iteration as int),
                trial.is_market(base, point, present as int, self.routes@, *workspace),
                trial.is_sweep(base, iteration as int, point, order@, chain),
                chain.len() == index + 1,
                chain.last() == self.stage(*workspace),
            decreases order@.len() - index,
        {
            let net: usize = order[index].index;
            let event = RoutingProgress::Net {
                iteration,
                ordinal: index + 1,
                total,
                net: NetId(net),
            };
            proof {
                lemma_log_push(log, progress@, event);
            }
            progress.push(event);
            proof {
                assert(progress@ =~= log + net_events(iteration, total, order@, index + 1));
            }
            let ghost before = self.routes@;
            let ghost room = *workspace;
            match self.route_one(trial, workspace, net, iteration == 0, present) {
                Err(error) => {
                    proof {
                        assert(trial.is_market(base, point, present as int, before, room));
                        if error is CongestionNotResolved {
                            let route = choose|route: Arc<NetRoute>|
                                trial.buys(
                                    room,
                                    iteration == 0,
                                    NetId(net),
                                    slot_arcs(before[net as int]),
                                    Ok(*route),
                                ) && slot_fits(
                                    Some(route),
                                    trial.graph.device.wires@.len() as int,
                                    trial.graph.device.pips@.len() as int,
                                ) && #[trigger] enters_full(before, net as int, Some(route));
                            assert(trial.is_turn(
                                base,
                                iteration as int,
                                point,
                                before,
                                net,
                                Ok(*route),
                            ));
                            assert(enters_full(before, net as int, Some(route)));
                        } else {
                            assert(trial.is_turn(
                                base,
                                iteration as int,
                                point,
                                before,
                                net,
                                Err(error),
                            ));
                        }
                        assert(trial.halts(base, iteration as int, point, before, net, error));
                        assert(trial.is_sweep(base, iteration as int, point, order@, chain));
                        let events = sweep_events(
                            iteration as int,
                            point,
                            order@,
                            chain.len() as int,
                        );
                        assert(trial.stops(base, iteration as int, point, error, events));
                        lemma_announced(log, iteration, point, order@, index + 1, progress@);
                    }
                    return Err(error);
                },
                Ok(()) => {},
            }
            proof {
                assert(trial.is_market(base, point, present as int, before, room));
                assert(trial.is_turn(
                    base,
                    iteration as int,
                    point,
                    before,
                    net,
                    Ok(*(self.routes@[net as int]->0)),
                ));
                trial.lemma_sweep_grows(
                    base,
                    iteration as int,
                    point,
                    order@,
                    chain,
                    self.stage(*workspace),
                );
                chain = chain.push(self.stage(*workspace));
                assert forall|i: int| 0 <= i < self.routes@.len() implies trial.slot_pending(
                    i,
                    #[trigger] self.routes@[i],
                    dirty@,
                ) || trial.slot_done(i, self.routes@[i]) by {
                    if i != net {
                        assert(self.routes@[i] == before[i]);
                        assert(trial.slot_pending(i, before[i], dirty@) || trial.slot_done(
                            i,
                            before[i],
                        ));
                    }
                }
                assert forall|k: int| 0 <= k < index + 1 implies trial.slot_done(
                    (#[trigger] order@[k]).index as int,
                    self.routes@[order@[k].index as int],
                ) by {
                    if order@[k].index != net {
                        assert(self.routes@[order@[k].index as int]
                            == before[order@[k].index as int]);
                    }
                }
            }
            index = index + 1;
        }
        proof {
            assert(trial.is_sweep(base, iteration as int, point, order@, chain));
            let events = sweep_events(iteration as int, point, order@, order@.len() as int);
            assert(trial.sweeps(
                base,
                iteration as int,
                point,
                self.stage(*workspace),
                events,
            ));
            lemma_announced(log, iteration, point, order@, index as int, progress@);
            assert(self.routes.len() == self.routes@.len());
            assert forall|i: int| 0 <= i < self.routes@.len() implies trial.slot_done(
                i,
                #[trigger] self.routes@[i],
            ) by {
                let n = i as usize;
                if net_is_dirty(dirty@, NetId(n)) {
                    let k = choose|k: int|
                        0 <= k < order@.len() && (#[trigger] order@[k]).index == n;
                    assert(trial.slot_done(
                        order@[k].index as int,
                        self.routes@[order@[k].index as int],
                    ));
                } else if !trial.slot_done(i, self.routes@[i]) {
                    assert(trial.slot_ok(i, self.routes@[i]));
                    lemma_clean_is_done(*trial, i, self.routes@[i], dirty@);
                }
            }
        }
        Ok(())
    }

    /// Nets of an iteration in the order in which they are routed.
    fn iteration_order(
        sorted: &Vec<RoutingOrderEntry>,
        nets: &OrderedSet<usize>,
        priority: &OrderedSet<usize>,
        Ghost(trial): Ghost<Trial<'_>>,
        Ghost(point): Ghost<NegotiationPoint>,
    ) -> (result: Vec<RoutingOrderEntry>)
        requires
            nets.wf(),
            priority.wf(),
            lists_all(trial, sorted@),
            nets@ == dirty_net_set(point.dirty),
            priority@ == point.priority,
        ensures
            trial.is_order(point, result@),
            forall|e: RoutingOrderEntry| #[trigger]
                result@.contains(e) <==> sorted@.contains(e) && nets@.contains(e.index),
    {
        let mut order: Vec<RoutingOrderEntry> = Vec::new();
        let ghost mut from: Seq<int> = Seq::empty();
        let mut index: usize = 0;
        while index < sorted.len()
            invariant
                index <= sorted@.len(),
                nets.wf(),
                from.len() == order@.len(),
                forall|i: int|
                    0 <= i < from.len() ==> 0 <= #[trigger] from[i] < index && order@[i]
                        == sorted@[from[i]] && nets@.contains(order@[i].index),
                forall|i: int, j: int|
                    0 <= i < j < from.len() ==> #[trigger] from[i] < #[trigger] from[j],
                forall|k: int|
                    0 <= k < index && nets@.contains((#[trigger] sorted@[k]).index)
                        ==> from.contains(k),
            decreases sorted@.len() - index,
        {
            let entry = sorted[index];
            let ghost earlier = from;
            if nets.contains(entry.index) {
                order.push(entry);
                proof {
                    from = from.push(index as int);
                    assert(from[earlier.len() as int] == index);
                }
            }
            proof {
                assert forall|k: int|
                    0 <= k < index + 1 && nets@.contains(
                        (#[trigger] sorted@[k]).index,
                    ) implies from.contains(k) by {
                    if k < index {
                        let i = earlier.index_of(k);
                        assert(from[i] == k);
                    } else {
                        assert(from[earlier.len() as int] == k);
                    }
                }
            }
            index = index + 1;
        }
        let ghost filtered = order@;
        proof {
            assert forall|i: int, j: int| 0 <= i < j < filtered.len() implies (
            #[trigger] filtered[i]).rank() <= (#[trigger] filtered[j]).rank() by {
                assert(from[i] < from[j]);
                assert(sorted@[from[i]].rank() <= sorted@[from[j]].rank());
            }
            assert forall|i: int, j: int|
                0 <= i < filtered.len() && 0 <= j < filtered.len() && i != j implies filtered[i]
                != filtered[j] by {
                if i < j {
                    assert(from[i] < from[j]);
                } else {
                    assert(from[j] < from[i]);
                }
            }
            assert forall|e: RoutingOrderEntry| #[trigger] filtered.contains(e)
                <==> sorted@.contains(e) && nets@.contains(e.index) by {
                if filtered.contains(e) {
                    let i = filtered.index_of(e);
                    assert(sorted@[from[i]] == e);
                }
                if sorted@.contains(e) && nets@.contains(e.index) {
                    let k = sorted@.index_of(e);
                    assert(from.contains(k));
                    let i = from.index_of(k);
                    assert(from[i] == k);
                    assert(filtered[i] == e);
                }
            }
            lemma_lists_dirty(trial, point.dirty, sorted@, filtered, nets@);
        }
        if !priority.is_empty() {
            prioritize_cycle_connections(&mut order, priority);
            proof {
                let arranged = choose|arranged: Seq<RoutingOrderEntry>|
                    {
                        &&& #[trigger] nondecreasing(arranged)
                        &&& arranged.to_multiset() == filtered.to_multiset()
                        &&& order@ == members(arranged, priority@, true).reverse() + members(
                            arranged,
                            priority@,
                            false,
                        )
                    };
                lemma_same_members(arranged, filtered);
                assert forall|e: RoutingOrderEntry| #[trigger] arranged.contains(e) <==> {
                    &&& e.index < trial.net_count()
                    &&& net_is_dirty(point.dirty, NetId(e.index))
                    &&& e == order_entry(
                        trial.graph.design,
                        trial.constraints,
                        trial.costs,
                        e.index as int,
                    )
                } by {
                    assert(arranged.contains(e) <==> filtered.contains(e));
                }
                assert(trial.lists_dirty(point.dirty, arranged));
            }
        } else {
            assert(trial.lists_dirty(point.dirty, order@));
        }
        order
    }
}

/// Every net of the design in routing order.
pub open spec fn lists_all(trial: Trial<'_>, sorted: Seq<RoutingOrderEntry>) -> bool {
    &&& nondecreasing(sorted)
    &&& sorted.no_duplicates()
    &&& forall|e: RoutingOrderEntry| #[trigger]
        sorted.contains(e) <==> e.index < trial.net_count() && e == order_entry(
            trial.graph.design,
            trial.constraints,
            trial.costs,
            e.index as int,
        )
}

/// The dirty nets among all nets are the dirty ones.
proof fn lemma_lists_dirty(
    trial: Trial<'_>,
    dirty: Set<Connection>,
    sorted: Seq<RoutingOrderEntry>,
    filtered: Seq<RoutingOrderEntry>,
    nets: Set<usize>,
)
    requires
        lists_all(trial, sorted),
        nets == dirty_net_set(dirty),
        nondecreasing(filtered),
        filtered.no_duplicates(),
        forall|e: RoutingOrderEntry| #[trigger]
            filtered.contains(e) <==> sorted.contains(e) && nets.contains(e.index),
    ensures
        trial.lists_dirty(dirty, filtered),
{
    assert forall|e: RoutingOrderEntry| #[trigger] filtered.contains(e) <==> {
        &&& e.index < trial.net_count()
        &&& net_is_dirty(dirty, NetId(e.index))
        &&& e == order_entry(
            trial.graph.design,
            trial.constraints,
            trial.costs,
            e.index as int,
        )
    } by {
        assert(sorted.contains(e) <==> e.index < trial.net_count() && e == order_entry(
            trial.graph.design,
            trial.constraints,
            trial.costs,
            e.index as int,
        ));
        assert(nets.contains(e.index) <==> net_is_dirty(dirty, NetId(e.index)));
    }
}

/// Lists of the same entries, of which one has none twice.
proof fn lemma_same_members(a: Seq<RoutingOrderEntry>, b: Seq<RoutingOrderEntry>)
    requires
        a.to_multiset() == b.to_multiset(),
        b.no_duplicates(),
    ensures
        a.no_duplicates(),
        forall|e: RoutingOrderEntry| #[trigger] a.contains(e) <==> b.contains(e),
{
    a.to_multiset_ensures();
    b.to_multiset_ensures();
    assert forall|e: RoutingOrderEntry| #[trigger] a.contains(e) <==> b.contains(e) by {
        assert(a.contains(e) <==> a.to_multiset().count(e) > 0);
        assert(b.contains(e) <==> b.to_multiset().count(e) > 0);
    }
    assert forall|i: int, j: int| 0 <= i < a.len() && 0 <= j < a.len() && i != j implies a[i]
        != a[j] by {
        if a[i] == a[j] {
            if i < j {
                crate::ordered::lemma_twice_counted(a, i, j);
            } else {
                crate::ordered::lemma_twice_counted(a, j, i);
            }
            let (x, y) = crate::ordered::lemma_counted_twice(b, a[i]);
            assert(b[x] != b[y]);
        }
    }
}

/// No resource has more users than it can carry.
pub open spec fn within_capacity(
    device: &crate::device::Device,
    routes: Seq<Option<Arc<NetRoute>>>,
) -> bool {
    &&& forall|w: int|
        0 <= w < device.wires@.len() ==> #[trigger] users(wire_sets(routes), w)
            <= device.wires@[w].capacity
    &&& forall|p: int|
        0 <= p < device.pips@.len() ==> #[trigger] users(pip_sets(routes), p)
            <= device.pips@[p].capacity
}

/// Capacities are below what a counter holds.
pub proof fn lemma_within_is_countable(
    device: &crate::device::Device, routes: Seq<Option<Arc<NetRoute>>>)
    ensures
        within_capacity(device, routes) ==> countable(
            routes,
            device.wires@.len() as int,
            device.pips@.len() as int,
        ),
{
}

/// The connections that every observed state released are movable ones of the design's nets.
spec fn states_ok(trial: Trial<'_>, states: Seq<RoutingConflictState>) -> bool {
    forall|i: int| 0 <= i < states.len() ==> dirty_ok(trial, (#[trigger] states[i]).dirty@)
}

impl Negotiation {
    /// Without overuse every resource carries what it can.
    proof fn lemma_within_capacity(&self, workspace: RoutingWorkspace, trial: Trial<'_>)
        requires
            self.balanced(workspace, trial),
            self.overused_wires@ == Set::<usize>::empty(),
            self.overused_pips@ == Set::<usize>::empty(),
        ensures
            within_capacity(trial.graph.device, self.routes@),
    {
        let device = trial.graph.device;
        assert(workspace.wires.capacities.len() == workspace.wires.capacities@.len());
        assert(workspace.pips.capacities.len() == workspace.pips.capacities@.len());
        assert forall|w: int| 0 <= w < device.wires@.len() implies #[trigger] users(
            wire_sets(self.routes@),
            w,
        ) <= device.wires@[w].capacity by {
            assert(workspace.wires.occupancy@[w] == users(wire_sets(self.routes@), w));
            assert(!self.overused_wires@.contains(w as usize));
            assert(workspace.wires.capacities@[w] == device.wires@[w].capacity);
        }
        assert forall|p: int| 0 <= p < device.pips@.len() implies #[trigger] users(
            pip_sets(self.routes@),
            p,
        ) <= device.pips@[p].capacity by {
            assert(workspace.pips.occupancy@[p] == users(pip_sets(self.routes@), p));
            assert(!self.overused_pips@.contains(p as usize));
            assert(workspace.pips.capacities@[p] == device.pips@[p].capacity);
        }
    }

    /// Where every resource carries what it can, nothing is overused.
    proof fn lemma_no_overuse(&self, workspace: RoutingWorkspace, trial: Trial<'_>)
        requires
            self.balanced(workspace, trial),
            within_capacity(trial.graph.device, self.routes@),
        ensures
            self.overused_wires@ == Set::<usize>::empty(),
            self.overused_pips@ == Set::<usize>::empty(),
    {
        let device = trial.graph.device;
        assert forall|r: usize| !self.overused_wires@.contains(r) by {
            if self.overused_wires@.contains(r) {
                assert(users(wire_sets(self.routes@), r as int) <= device.wires@[r as int].capacity);
                assert(workspace.wires.occupancy@[r as int] == users(
                    wire_sets(self.routes@),
                    r as int,
                ));
                assert(workspace.wires.capacities@[r as int] == device.wires@[r as int].capacity);
            }
        }
        assert forall|r: usize| !self.overused_pips@.contains(r) by {
            if self.overused_pips@.contains(r) {
                assert(users(pip_sets(self.routes@), r as int) <= device.pips@[r as int].capacity);
                assert(workspace.pips.occupancy@[r as int] == users(
                    pip_sets(self.routes@),
                    r as int,
                ));
                assert(workspace.pips.capacities@[r as int] == device.pips@[r as int].capacity);
            }
        }
        assert(self.overused_wires@ =~= Set::<usize>::empty());
        assert(self.overused_pips@ =~= Set::<usize>::empty());
    }

    /// Overuse means that some resource cannot carry every net.
    proof fn lemma_overuse_is_tight(&self, workspace: RoutingWorkspace, trial: Trial<'_>)
        requires
            self.balanced(workspace, trial),
            self.overused_wires@ != Set::<usize>::empty() || self.overused_pips@ != Set::<
                usize,
            >::empty(),
        ensures
            trial.is_tight(),
    {
        let device = trial.graph.device;
        if self.overused_wires@ != Set::<usize>::empty() {
            assert(exists|r: usize| self.overused_wires@.contains(r)) by {
                if forall|r: usize| !self.overused_wires@.contains(r) {
                    assert(self.overused_wires@ =~= Set::<usize>::empty());
                }
            }
            let r = choose|r: usize| self.overused_wires@.contains(r);
            lemma_users_range(wire_sets(self.routes@), r as int);
            assert(workspace.wires.occupancy@[r as int] == users(wire_sets(self.routes@), r as int));
            assert(workspace.wires.capacities@[r as int] == device.wires@[r as int].capacity);
            assert(device.wires@[r as int].capacity < trial.net_count());
        } else {
            assert(exists|r: usize| self.overused_pips@.contains(r)) by {
                if forall|r: usize| !self.overused_pips@.contains(r) {
                    assert(self.overused_pips@ =~= Set::<usize>::empty());
                }
            }
            let r = choose|r: usize| self.overused_pips@.contains(r);
            lemma_users_range(pip_sets(self.routes@), r as int);
            assert(workspace.pips.occupancy@[r as int] == users(pip_sets(self.routes@), r as int));
            assert(workspace.pips.capacities@[r as int] == device.pips@[r as int].capacity);
            assert(device.pips@[r as int].capacity < trial.net_count());
        }
    }

    /// Hands the routes out.
    fn finish(&self, Ghost(trial): Ghost<Trial<'_>>) -> (result: Vec<Arc<NetRoute>>)
        requires
            all_done(trial, self.routes@),
        ensures
            filled(result@) == self.routes@,
    {
        let mut result: Vec<Arc<NetRoute>> = Vec::new();
        let mut index: usize = 0;
        while index < self.routes.len()
            invariant
                index <= self.routes@.len(),
                all_done(trial, self.routes@),
                result@.len() == index,
                forall|i: int| 0 <= i < index ==> Some(#[trigger] result@[i]) == self.routes@[i],
            decreases self.routes@.len() - index,
        {
            assert(trial.slot_done(index as int, self.routes@[index as int]));
            if let Some(route) = &self.routes[index] {
                result.push(share(route));
            }
            index = index + 1;
        }
        assert(filled(result@) =~= self.routes@);
        result
    }
}

/// Weight of present overuse: it doubles with every iteration, up to a limit.
fn present_factor(iteration: u32) -> (result: u32)
    ensures
        result <= 4096,
        result == 1u32 << (if iteration < 12 {
            iteration
        } else {
            12
        }),
{
    let shift: u32 = if iteration < 12 {
        iteration
    } else {
        12
    };
    let factor: u32 = 1u32 << shift;
    assert(factor <= 4096) by (bit_vector)
        requires
            shift <= 12,
            factor == 1u32 << shift,
    ;
    factor
}

/// The order lists the net.
spec fn lists_net(order: Seq<RoutingOrderEntry>, net: usize) -> bool {
    exists|i: int| 0 <= i < order.len() && (#[trigger] order[i]).index == net
}

/// What no route reaches is movable.
proof fn lemma_unrouted_is_movable(
    trial: Trial<'_>,
    routes: Seq<Option<Arc<NetRoute>>>,
    dirty: Set<Connection>,
)
    requires
        trial.wf(),
        trial.slots_ok(routes),
        forall|c: Connection| #[trigger] dirty.contains(c) <==> is_unrouted(trial, routes, c),
    ensures
        dirty_ok(trial, dirty),
        all_pending(trial, routes, dirty),
{
    assert(trial.graph.design.nets.len() == trial.graph.design.nets@.len());
    assert forall|c: Connection| #[trigger] dirty.contains(c) implies !sink_locked(
        trial.constraints,
        c.net,
        Some(c.sink),
    ) by {
        assert(is_unrouted(trial, routes, c));
        if sink_locked(trial.constraints, c.net, Some(c.sink)) {
            let locked = locked_arcs(trial.constraints, c.net);
            let i = choose|i: int|
                0 <= i < trial.constraints.routes@[c.net].arcs@.len() && (
                #[trigger] trial.constraints.routes@[c.net].arcs@[i]).sink == Some(c.sink);
            assert(trial.slot_ok(c.net.0 as int, routes[c.net.0 as int]));
            assert(NetId(c.net.0 as int as usize) == c.net);
            let route = routes[c.net.0 as int]->0;
            assert(routes[c.net.0 as int] is Some);
            assert(arcs_kept(locked, route.arcs@));
            assert(holds_arc(route.arcs@, locked[i]));
            assert(route.reaches(c.sink));
        }
    }
    assert forall|i: int| 0 <= i < routes.len() implies trial.slot_pending(
        i,
        #[trigger] routes[i],
        dirty,
    ) by {
        let sinks = trial.graph.design.nets@[i].sinks@;
        assert forall|k: int| 0 <= k < sinks.len() implies trial.slot_reaches(
            routes[i],
            #[trigger] trial.graph.design.nets@[i].sinks@[k],
        ) || dirty.contains(Connection { net: NetId(i as usize), sink: sinks[k] }) by {
            let c = Connection { net: NetId(i as usize), sink: sinks[k] };
            if !trial.slot_reaches(routes[i], sinks[k]) {
                assert(is_unrouted(trial, routes, c));
            }
        }
    }
}

/// The log, whose last event opens an iteration, goes on with the events of it.
pub open spec fn announced(
    before: Seq<RoutingProgress>,
    events: Seq<RoutingProgress>,
    after: Seq<RoutingProgress>,
) -> bool {
    before.len() > 0 && after == before.drop_last() + events
}

/// The opening and the events of the nets are those of the iteration.
proof fn lemma_announced(
    before: Seq<RoutingProgress>,
    iteration: u32,
    point: NegotiationPoint,
    order: Seq<RoutingOrderEntry>,
    count: int,
    after: Seq<RoutingProgress>,
)
    requires
        ({
            let total = dirty_net_set(point.dirty).len() as usize;
            &&& before.len() > 0
            &&& before.last() == (RoutingProgress::Iteration { iteration, nets: total })
            &&& after == before + net_events(iteration, total, order, count)
        }),
    ensures
        announced(before, sweep_events(iteration as int, point, order, count), after),
{
    assert((iteration as int) as u32 == iteration);
    assert(after =~= before.drop_last() + sweep_events(iteration as int, point, order, count));
}

/// A table priced as a whole has its prices.
proof fn lemma_all_priced(table: ResourceTable, present: int)
    requires
        table.wf(table.capacities@.len() as int),
        forall|r: int|
            0 <= r < table.capacities@.len() ==> #[trigger] table.congestion@[r]
                == if table.touched@.contains(r as usize) {
                negotiated_price(
                    table.occupancy@[r] as int,
                    table.capacities@[r] as int,
                    table.history@[r] as int,
                    present,
                )
            } else {
                0
            },
    ensures
        prices_hold(table, present),
{
    assert forall|r: int| 0 <= r < table.capacities@.len() implies #[trigger] price_holds(
        table,
        present,
        r,
    ) by {
        assert(table.listed(r));
        let price = table.congestion@[r];
    }
}

/// What overuse adds to the history.
proof fn lemma_history_grown(
    before: ResourceTable,
    after: ResourceTable,
    overused: &OrderedSet<usize>,
    sets: Seq<Set<int>>,
)
    requires
        before.wf(before.capacities@.len() as int),
        before.counts(sets),
        before.tracks(overused),
        after.capacities == before.capacities,
        after.history@.len() == before.history@.len(),
        forall|r: int|
            0 <= r < after.history@.len() ==> #[trigger] after.history@[r] == before.history@[r]
                + as_count(overused@.contains(r as usize)) * (before.occupancy@[r]
                - before.capacities@[r]),
    ensures
        is_grown(before.history@, sets, after.capacities@, after.history@),
{
    assert forall|r: int| 0 <= r < before.history@.len() implies #[trigger] after.history@[r]
        == before.history@[r] + crate::cost::larger(
        users(sets, r) - after.capacities@[r],
        0,
    ) by {
        assert(before.occupancy@[r] == users(sets, r));
        let n = r as usize;
        assert(overused@.contains(n) <==> n < before.occupancy@.len() && before.occupancy@[n as int]
            > before.capacities@[n as int]);
        let excess = before.occupancy@[r] - before.capacities@[r];
        if overused@.contains(n) {
            assert(as_count(true) * excess == excess) by (nonlinear_arith)
                requires
                    as_count(true) == 1,
            ;
        } else {
            assert(as_count(false) * excess == 0) by (nonlinear_arith)
                requires
                    as_count(false) == 0,
            ;
        }
    }
}

/// The owner index after the nets took their resources in turn.
pub open spec fn is_entry_chain(
    sets: Seq<Set<int>>,
    table: ResourceTable,
    chain: Seq<OwnerIndex>,
) -> bool {
    &&& chain.len() > 0
    &&& chain[0].owners@ == Map::<usize, NetId>::empty()
    &&& chain[0].stale@ == Set::<usize>::empty()
    &&& chain[0].conflicts@ == Set::<crate::owners::ResourceClaim>::empty()
    &&& forall|i: int|
        0 <= i < chain.len() - 1 ==> are_claimed(
            chain[i],
            sets[i],
            NetId(i as usize),
            table,
            #[trigger] chain[i + 1],
        )
}

/// Every net took its resources.
pub open spec fn is_entered(
    sets: Seq<Set<int>>,
    table: ResourceTable,
    owners: OwnerIndex,
) -> bool {
    exists|chain: Seq<OwnerIndex>|
        #[trigger] is_entry_chain(sets, table, chain) && chain.len() == sets.len() + 1
            && chain.last() == owners
}

/// One more net makes a longer chain.
proof fn lemma_entry_grows(
    sets: Seq<Set<int>>,
    table: ResourceTable,
    chain: Seq<OwnerIndex>,
    next: OwnerIndex,
)
    requires
        is_entry_chain(sets, table, chain),
        chain.len() <= sets.len(),
        are_claimed(
            chain.last(),
            sets[chain.len() - 1],
            NetId((chain.len() - 1) as usize),
            table,
            next,
        ),
    ensures
        is_entry_chain(sets, table, chain.push(next)),
{
    let longer = chain.push(next);
    assert forall|i: int| 0 <= i < longer.len() - 1 implies are_claimed(
        longer[i],
        sets[i],
        NetId(i as usize),
        table,
        #[trigger] longer[i + 1],
    ) by {
        if i < chain.len() - 1 {
            assert(longer[i + 1] == chain[i + 1]);
        }
    }
}

impl Negotiation {
    /// Enters the resources of every route in the owner indices.
    fn prepare_owners(&self, trial: &Trial<'_>, workspace: &mut RoutingWorkspace)
        requires
            self.balanced(*old(workspace), *trial),
        ensures
            self.balanced(*final(workspace), *trial),
            *final(workspace) == (RoutingWorkspace {
                wire_owners: final(workspace).wire_owners,
                pip_owners: final(workspace).pip_owners,
                ..*old(workspace)
            }),
            is_entered(
                wire_sets(self.routes@),
                old(workspace).wires,
                final(workspace).wire_owners,
            ),
            is_entered(
                pip_sets(self.routes@),
                old(workspace).pips,
                final(workspace).pip_owners,
            ),
    {
        workspace.wire_owners = OwnerIndex::new();
        workspace.pip_owners = OwnerIndex::new();
        let ghost start = *workspace;
        let ghost mut wire_chain: Seq<OwnerIndex> = seq![workspace.wire_owners];
        let ghost mut pip_chain: Seq<OwnerIndex> = seq![workspace.pip_owners];
        let mut index: usize = 0;
        while index < self.routes.len()
            invariant
                index <= self.routes@.len(),
                self.slots_good(*workspace, *trial),
                workspace.wf(),
                *workspace == (RoutingWorkspace {
                    wire_owners: workspace.wire_owners,
                    pip_owners: workspace.pip_owners,
                    ..start
                }),
                start == (RoutingWorkspace {
                    wire_owners: start.wire_owners,
                    pip_owners: start.pip_owners,
                    ..*old(workspace)
                }),
                is_entry_chain(wire_sets(self.routes@), start.wires, wire_chain),
                is_entry_chain(pip_sets(self.routes@), start.pips, pip_chain),
                wire_chain.len() == index + 1,
                pip_chain.len() == index + 1,
                wire_chain.last() == workspace.wire_owners,
                pip_chain.last() == workspace.pip_owners,
            decreases self.routes@.len() - index,
        {
            if let Some(route) = &self.routes[index] {
                assert(slot_fits(
                    self.routes@[index as int],
                    workspace.wire_count(),
                    workspace.pip_count(),
                ));
                let none: Option<Arc<NetRoute>> = None;
                self.enter_owners(workspace, route, &none, NetId(index));
                proof {
                    let slot = self.routes@[index as int];
                    assert(slot_wires(slot).difference(slot_wires(none)) =~= slot_wires(slot));
                    assert(slot_pips(slot).difference(slot_pips(none)) =~= slot_pips(slot));
                }
            }
            proof {
                let wires = wire_sets(self.routes@);
                let pips = pip_sets(self.routes@);
                assert(wires[index as int] == slot_wires(self.routes@[index as int]));
                assert(pips[index as int] == slot_pips(self.routes@[index as int]));
                lemma_entry_grows(wires, start.wires, wire_chain, workspace.wire_owners);
                lemma_entry_grows(pips, start.pips, pip_chain, workspace.pip_owners);
                wire_chain = wire_chain.push(workspace.wire_owners);
                pip_chain = pip_chain.push(workspace.pip_owners);
            }
            index = index + 1;
        }
        proof {
            assert(is_entry_chain(wire_sets(self.routes@), start.wires, wire_chain));
            assert(is_entry_chain(pip_sets(self.routes@), start.pips, pip_chain));
            lemma_same_counts(
                *old(workspace),
                *workspace,
                self.routes@,
                self.overused_wires,
                self.overused_pips,
            );
        }
    }

    /// Routes the connections of one iteration again and prices what stays overused.
    fn iterate(
        &mut self,
        trial: &Trial<'_>,
        workspace: &mut RoutingWorkspace,
        sorted: &Vec<RoutingOrderEntry>,
        priority: &OrderedSet<usize>,
        dirty: &OrderedSet<Connection>,
        iteration: u32,
        progress: &mut Vec<RoutingProgress>,
        Ghost(base): Ghost<RouteSearch>,
        Ghost(point): Ghost<NegotiationPoint>,
    ) -> (result: Result<(), PnrError>)
        requires
            trial.wf(),
            nets_have_work(trial.graph.design, trial.constraints),
            old(self).balanced(*old(workspace), *trial),
            dirty.wf(),
            priority.wf(),
            dirty_ok(*trial, dirty@),
            all_pending(*trial, old(self).routes@, dirty@),
            iteration < 32,
            old(workspace).wires.history_at_most(iteration * HISTORY_STEP),
            old(workspace).pips.history_at_most(iteration * HISTORY_STEP),
            lists_all(*trial, sorted@),
            point.routes == old(self).routes@,
            point.wire_history == old(workspace).wires.history@,
            point.pip_history == old(workspace).pips.history@,
            point.dirty == dirty@,
            point.priority == priority@,
            point.stage() == old(self).stage(*old(workspace)),
            old(workspace).search.same_estimates(&base),
        ensures
            final(workspace).wf(),
            final(workspace).fits(trial.graph.device),
            !final(workspace).resident_valid,
            final(workspace).search.same_estimates(&old(workspace).search),
            extends_log(old(progress)@, final(progress)@),
            final(progress)@.len() > old(progress)@.len(),
            final(progress)@[old(progress)@.len() as int] matches RoutingProgress::Iteration {
                iteration: number,
                nets,
            } && number == iteration && (dirty@ == Set::<Connection>::empty() ==> nets == 0),
            match result {
                Ok(()) => {
                    &&& final(self).balanced(*final(workspace), *trial)
                    &&& all_done(*trial, final(self).routes@)
                    &&& final(workspace).wires.history_at_most((iteration + 1) * HISTORY_STEP)
                    &&& final(workspace).pips.history_at_most((iteration + 1) * HISTORY_STEP)
                    &&& dirty@ == Set::<Connection>::empty() ==> final(self).routes@ == old(
                        self,
                    ).routes@
                    &&& exists|events: Seq<RoutingProgress>|
                        #[trigger] trial.sweeps(
                            base,
                            iteration as int,
                            point,
                            final(self).stage(*final(workspace)),
                            events,
                        ) && final(progress)@ == old(progress)@ + events
                    &&& is_grown(
                        point.wire_history,
                        wire_sets(final(self).routes@),
                        final(workspace).wires.capacities@,
                        final(workspace).wires.history@,
                    )
                    &&& is_grown(
                        point.pip_history,
                        pip_sets(final(self).routes@),
                        final(workspace).pips.capacities@,
                        final(workspace).pips.history@,
                    )
                },
                Err(error) => {
                    &&& trial.failed(error)
                    &&& dirty@ != Set::<Connection>::empty()
                    &&& exists|events: Seq<RoutingProgress>|
                        #[trigger] trial.stops(base, iteration as int, point, error, events)
                            && final(progress)@ == old(progress)@ + events
                },
            },
    {
        let present: u32 = present_factor(iteration);
        let nets = dirty_nets(dirty);
        let ghost log = progress@;
        let total: usize = nets.len();
        let event = RoutingProgress::Iteration { iteration, nets: total };
        proof {
            assert(log.take(log.len() as int) =~= log);
            lemma_log_push(log, log, event);
            assert((iteration * HISTORY_STEP) <= 32 * HISTORY_STEP) by (nonlinear_arith)
                requires
                    iteration < 32,
            ;
            assert((iteration + 1) * HISTORY_STEP == iteration * HISTORY_STEP + HISTORY_STEP)
                by (nonlinear_arith);
            if dirty@ == Set::<Connection>::empty() {
                assert forall|n: usize| !nets@.contains(n) by {}
                if nets.ordered().len() > 0 {
                    assert(nets.ordered().contains(nets.ordered()[0]));
                    nets.membership(nets.ordered()[0]);
                }
            }
        }
        progress.push(event);
        let ghost first = progress@;
        proof {
            nets.size();
        }
        self.release_dirty(trial, workspace, &nets, dirty);
        let ghost released = *workspace;
        let ghost freed = self.stage(*workspace);
        proof {
            lemma_slots_wf(self.routes@, workspace.wire_count(), workspace.pip_count());
        }
        workspace.wire_owners.repair_stale(&self.routes, ResourceClass::Wire);
        workspace.pip_owners.repair_stale(&self.routes, ResourceClass::Pip);
        workspace.wires.price_all(present);
        workspace.pips.price_all(present);
        proof {
            lemma_same_counts(
                released,
                *workspace,
                self.routes@,
                self.overused_wires,
                self.overused_pips,
            );
        }
        let order = Self::iteration_order(
            sorted,
            &nets,
            priority,
            Ghost(*trial),
            Ghost(point),
        );
        proof {
            lemma_all_listed(*trial, sorted@);
            lemma_all_priced(workspace.wires, present as int);
            lemma_all_priced(workspace.pips, present as int);
            assert(is_counted(trial.graph.device, self.routes@, *workspace));
            assert(trial.is_market(base, point, present as int, self.routes@, *workspace));
            assert(repairs(freed, self.stage(*workspace)));
            assert(trial.begins(point, self.stage(*workspace)));
            assert(trial.is_sweep(
                base,
                iteration as int,
                point,
                order@,
                seq![self.stage(*workspace)],
            ));
            assert forall|i: int| 0 <= i < order@.len() implies (#[trigger] order@[i]).index
                < trial.net_count() by {
                assert(order@.contains(order@[i]));
                let k = sorted@.index_of(order@[i]);
                assert(sorted@[k].index < trial.net_count());
            }
            assert forall|n: usize|
                n < trial.net_count() && #[trigger] net_is_dirty(dirty@, NetId(n)) implies exists|
                i: int,
            | 0 <= i < order@.len() && (#[trigger] order@[i]).index == n by {
                assert(lists_net(sorted@, n));
                let k = choose|k: int| 0 <= k < sorted@.len() && (#[trigger] sorted@[k]).index == n;
                assert(sorted@.contains(sorted@[k]));
                assert(nets@.contains(n));
                assert(order@.contains(sorted@[k]));
                let i = order@.index_of(sorted@[k]);
                assert(order@[i].index == n);
            }
            if dirty@ == Set::<Connection>::empty() && order@.len() > 0 {
                assert(order@.contains(order@[0]));
                assert(nets@.contains(order@[0].index));
                nets.membership(order@[0].index);
            }
        }
        match self.route_listed(
            trial,
            workspace,
            &order,
            iteration,
            present,
            total,
            dirty,
            progress,
            Ghost(base),
            Ghost(point),
        ) {
            Err(error) => {
                proof {
                    assert(first.drop_last() =~= log);
                    assert(first == progress@.take(first.len() as int));
                    assert(progress@.take(log.len() as int) =~= first.take(log.len() as int));
                    assert(progress@[log.len() as int] == first[log.len() as int]);
                }
                return Err(error);
            },
            Ok(()) => {},
        }
        proof {
            assert(first.drop_last() =~= log);
            assert(first == progress@.take(first.len() as int));
            assert(progress@.take(log.len() as int) =~= first.take(log.len() as int));
            assert(progress@[log.len() as int] == first[log.len() as int]);
        }
        let ghost events = choose|events: Seq<RoutingProgress>|
            #[trigger] trial.sweeps(
                base,
                iteration as int,
                point,
                self.stage(*workspace),
                events,
            ) && announced(first, events, progress@);
        assert(progress@ =~= log + events);
        let ghost routed = *workspace;
        workspace.wires.grow_history(&self.overused_wires, Ghost(iteration * HISTORY_STEP));
        workspace.pips.grow_history(&self.overused_pips, Ghost(iteration * HISTORY_STEP));
        proof {
            lemma_same_counts(
                routed,
                *workspace,
                self.routes@,
                self.overused_wires,
                self.overused_pips,
            );
            lemma_history_grown(
                routed.wires,
                workspace.wires,
                &self.overused_wires,
                wire_sets(self.routes@),
            );
            lemma_history_grown(
                routed.pips,
                workspace.pips,
                &self.overused_pips,
                pip_sets(self.routes@),
            );
            assert(self.stage(*workspace) == self.stage(routed));
            assert(trial.sweeps(
                base,
                iteration as int,
                point,
                self.stage(*workspace),
                events,
            ));
        }
        Ok(())
    }

    /// Chooses what the next iteration routes again and in which nets first.
    fn choose_next(
        &self,
        trial: &Trial<'_>,
        workspace: &mut RoutingWorkspace,
        detector: &mut RoutingConflictCycleDetector,
        Ghost(wire_history): Ghost<Seq<u32>>,
        Ghost(pip_history): Ghost<Seq<u32>>,
        Ghost(log): Ghost<Seq<RoutingProgress>>,
    ) -> (result: (OrderedSet<Connection>, OrderedSet<usize>))
        requires
            trial.wf(),
            self.balanced(*old(workspace), *trial),
            all_done(*trial, self.routes@),
            old(detector).wf(),
            states_ok(*trial, old(detector).states@),
        ensures
            self.balanced(*final(workspace), *trial),
            *final(workspace) == (RoutingWorkspace {
                wire_owners: final(workspace).wire_owners,
                pip_owners: final(workspace).pip_owners,
                ..*old(workspace)
            }),
            final(detector).wf(),
            states_ok(*trial, final(detector).states@),
            result.0.wf(),
            result.1.wf(),
            dirty_ok(*trial, result.0@),
            all_pending(*trial, self.routes@, result.0@),
            trial.is_sequel(
                *old(detector),
                self.stage(*old(workspace)),
                (NegotiationPoint {
                    routes: self.routes@,
                    wire_history,
                    pip_history,
                    dirty: result.0@,
                    priority: result.1@,
                    detector: *final(detector),
                    log,
                    wire_owners: final(workspace).wire_owners,
                    pip_owners: final(workspace).pip_owners,
                }),
            ),
    {
        let mut dirty = self.next_dirty(trial, workspace);
        let ghost room = *workspace;
        let ghost victims = dirty@;
        let mut priority: OrderedSet<usize> = OrderedSet::new();
        let objective = routing_congestion_objective(
            workspace,
            &self.overused_wires,
            &self.overused_pips,
        );
        let ghost states = detector.epoch(objective);
        let ghost chosen = dirty@;
        let cycle = detector.observe(
            objective,
            &self.overused_wires,
            &self.overused_pips,
            &dirty,
        );
        if let Some(cycle) = &cycle {
            priority = dirty_nets(&cycle.connections);
            let more = cycle.connections.as_slice();
            dirty.extend(more);
            proof {
                assert forall|c: Connection| #[trigger] dirty@.contains(c) implies c.net.0
                    < trial.net_count() && !sink_locked(
                    trial.constraints,
                    c.net,
                    Some(c.sink),
                ) by {
                    if !chosen.contains(c) {
                        assert(more@.to_set().contains(c));
                        cycle.connections.membership(c);
                        let i = choose|i: int|
                            states.len() - cycle.length <= i < states.len() && (
                            #[trigger] states[i]).dirty@.contains(c);
                        assert(dirty_ok(*trial, states[i].dirty@));
                    }
                }
            }
        } else {
            proof {
                let later = detector.states@;
                assert forall|i: int| 0 <= i < later.len() implies dirty_ok(
                    *trial,
                    (#[trigger] later[i]).dirty@,
                ) by {
                    if i < states.len() {
                        assert(later[i] == later.drop_last()[i]);
                    } else {
                        assert(later[i] == later.last());
                    }
                }
            }
        }
        proof {
            let wires = self.overused_wires@;
            let pips = self.overused_pips@;
            if let Some(cycle) = &cycle {
                let at = states.len() - cycle.length;
                assert(recurs_at(states, wires, pips, victims, at));
                let more = cycle.connections.ordered();
                assert(more.to_set() =~= cycle.connections@) by {
                    assert forall|c: Connection| more.to_set().contains(c)
                        == cycle.connections@.contains(c) by {
                        cycle.connections.membership(c);
                    }
                }
                assert(dirty@ == victims.union(released_since(states, at)));
            } else {
                assert forall|at: int| !recurs_at(states, wires, pips, victims, at) by {
                    if 0 <= at < states.len() {
                        let _ = states[at];
                    }
                }
                assert(priority@ == Set::<usize>::empty());
                assert(recurs_at(
                    detector.states@,
                    wires,
                    pips,
                    victims,
                    states.len() as int,
                ));
            }
        }
        workspace.wire_owners.resolve_conflicts(&self.routes, &dirty, ResourceClass::Wire);
        workspace.pip_owners.resolve_conflicts(&self.routes, &dirty, ResourceClass::Pip);
        proof {
            let after = NegotiationPoint {
                routes: self.routes@,
                wire_history,
                pip_history,
                dirty: dirty@,
                priority: priority@,
                detector: *detector,
                log,
                wire_owners: workspace.wire_owners,
                pip_owners: workspace.pip_owners,
            };
            assert(is_noted(
                *old(detector),
                objective,
                self.overused_wires@,
                self.overused_pips@,
                victims,
                after.detector,
                after.dirty,
                after.priority,
            ));
            assert(self.balanced(room, *trial));
            assert(is_objective(*self, room, objective));
            assert forall|c: Connection| victims.contains(c) <==> #[trigger] trial.is_chosen(
                *self,
                room,
                c,
            ) by {}
            assert(room.wire_owners == old(workspace).wire_owners);
            assert(trial.is_sequel(*old(detector), self.stage(*old(workspace)), after));
        }
        proof {
            lemma_same_counts(
                *old(workspace),
                *workspace,
                self.routes@,
                self.overused_wires,
                self.overused_pips,
            );
            assert forall|i: int| 0 <= i < self.routes@.len() implies trial.slot_pending(
                i,
                #[trigger] self.routes@[i],
                dirty@,
            ) by {
                assert(trial.slot_done(i, self.routes@[i]));
                assert(self.routes.len() == self.routes@.len());
                assert(NetId(i as usize).0 == i);
            }
        }
        (dirty, priority)
    }
}

/// Every net of the design in routing order.
fn sorted_nets(trial: &Trial<'_>) -> (result: Vec<RoutingOrderEntry>)
    requires
        trial.wf(),
    ensures
        lists_all(*trial, result@),
{
    let mut order = routing_order(trial.graph.design(), trial.constraints, trial.costs);
    let ghost listed = order@;
    sort_keys(&mut order);
    proof {
        assert(trial.graph.design.nets.len() == trial.graph.design.nets@.len());
        assert forall|i: int, j: int|
            0 <= i < listed.len() && 0 <= j < listed.len() && i != j implies listed[i]
            != listed[j] by {
            assert(listed[i].index == i);
            assert(listed[j].index == j);
        }
        lemma_same_members(order@, listed);
        assert forall|e: RoutingOrderEntry| #[trigger] order@.contains(e) <==> e.index
            < trial.net_count() && e == order_entry(
            trial.graph.design,
            trial.constraints,
            trial.costs,
            e.index as int,
        ) by {
            assert(order@.contains(e) <==> listed.contains(e));
            if listed.contains(e) {
                let k = listed.index_of(e);
                assert(listed[k] == order_entry(
                    trial.graph.design,
                    trial.constraints,
                    trial.costs,
                    k,
                ));
            }
            if e.index < trial.net_count() && e == order_entry(
                trial.graph.design,
                trial.constraints,
                trial.costs,
                e.index as int,
            ) {
                assert(listed[e.index as int] == e);
            }
        }
    }
    order
}

/// Every net has its entry.
proof fn lemma_all_listed(trial: Trial<'_>, sorted: Seq<RoutingOrderEntry>)
    requires
        trial.wf(),
        lists_all(trial, sorted),
    ensures
        forall|i: int| 0 <= i < sorted.len() ==> (#[trigger] sorted[i]).index < trial.net_count(),
        forall|n: usize| n < trial.net_count() ==> #[trigger] lists_net(sorted, n),
{
    assert forall|i: int| 0 <= i < sorted.len() implies (#[trigger] sorted[i]).index
        < trial.net_count() by {
        assert(sorted.contains(sorted[i]));
    }
    assert forall|n: usize| n < trial.net_count() implies #[trigger] lists_net(sorted, n) by {
        let e = order_entry(trial.graph.design, trial.constraints, trial.costs, n as int);
        assert(e.index == n);
        assert(sorted.contains(e));
        let k = sorted.index_of(e);
        assert(sorted[k].index == n);
    }
}

/// What a log grew by.
pub open spec fn events_since(
    before: Seq<RoutingProgress>,
    after: Seq<RoutingProgress>,
) -> Seq<RoutingProgress> {
    after.subrange(before.len() as int, after.len() as int)
}

/// What was added is what the log grew by.
proof fn lemma_events_since(
    before: Seq<RoutingProgress>,
    added: Seq<RoutingProgress>,
    after: Seq<RoutingProgress>,
)
    requires
        after == before + added,
    ensures
        events_since(before, after) == added,
{
    assert(events_since(before, after) =~= added);
}

/// Routes every net, negotiating shared resources by rising prices.
///
/// The nets keep their immutable parts, every sink is reached, and no resource
/// carries more nets than its capacity.
pub fn route(
    trial: &Trial<'_>,
    workspace: &mut RoutingWorkspace,
    routes: Vec<Option<Arc<NetRoute>>>,
    progress: &mut Vec<RoutingProgress>,
) -> (result: Result<Vec<Arc<NetRoute>>, PnrError>)
    requires
        trial.wf(),
        nets_have_work(trial.graph.design, trial.constraints),
        old(workspace).wf(),
        old(workspace).fits(trial.graph.device),
        !old(workspace).resident_valid,
        trial.slots_ok(routes@),
        slots_fit(routes@, old(workspace).wire_count(), old(workspace).pip_count()),
        old(workspace).wires.counts(wire_sets(routes@)),
        old(workspace).pips.counts(pip_sets(routes@)),
        old(workspace).wires.history_at_most(0),
        old(workspace).pips.history_at_most(0),
    ensures
        final(workspace).wf(),
        final(workspace).fits(trial.graph.device),
        !final(workspace).resident_valid,
        final(workspace).search.same_estimates(&old(workspace).search),
        extends_log(old(progress)@, final(progress)@),
        final(progress)@.len() > old(progress)@.len(),
        final(progress)@[old(progress)@.len() as int] matches RoutingProgress::Iteration {
            iteration,
            nets,
        } && iteration == 0 && (all_done(*trial, routes@) ==> nets == 0),
        match result {
            Ok(routed) => {
                &&& all_done(*trial, filled(routed@))
                &&& within_capacity(trial.graph.device, filled(routed@))
                &&& routed@.len() == trial.net_count()
                &&& slots_fit(
                    filled(routed@),
                    final(workspace).wire_count(),
                    final(workspace).pip_count(),
                )
                &&& final(workspace).wires.counts(wire_sets(filled(routed@)))
                &&& final(workspace).pips.counts(pip_sets(filled(routed@)))
                &&& all_done(*trial, routes@) && within_capacity(trial.graph.device, routes@)
                    ==> filled(routed@) == routes@
                &&& trial.negotiates(
                    old(workspace).search,
                    routes@,
                    filled(routed@),
                    events_since(old(progress)@, final(progress)@),
                )
            },
            Err(error) => {
                &&& trial.failed(error)
                &&& trial.gives_up(
                    old(workspace).search,
                    routes@,
                    error,
                    events_since(old(progress)@, final(progress)@),
                )
                &&& !(all_done(*trial, routes@) && within_capacity(trial.graph.device, routes@))
            },
        },
{
    let overused_wires = workspace.wires.find_overused();
    let overused_pips = workspace.pips.find_overused();
    let ghost begun = routes@;
    let ghost base = workspace.search;
    let sorted = sorted_nets(trial);
    let mut dirty = unrouted_connections(trial, &routes);
    proof {
        lemma_unrouted_is_movable(*trial, begun, dirty@);
        if all_done(*trial, begun) {
            assert forall|c: Connection| !dirty@.contains(c) by {
                if dirty@.contains(c) {
                    assert(is_unrouted(*trial, begun, c));
                    let n = c.net.0 as int;
                    assert(trial.slot_done(n, begun[n]));
                    let sinks = trial.graph.design.nets@[n].sinks@;
                    let k = sinks.index_of(c.sink);
                    assert(NetId(n as usize) == c.net);
                    assert((begun[n]->0).reaches(
                        trial.graph.design.nets@[c.net.0 as int].sinks@[k],
                    ));
                }
            }
            assert(dirty@ =~= Set::<Connection>::empty());
        }
    }
    let mut priority: OrderedSet<usize> = OrderedSet::new();
    let mut detector = RoutingConflictCycleDetector::new();
    let mut state = Negotiation { routes, overused_wires, overused_pips };
    state.prepare_owners(trial, workspace);
    let limit: u32 = match trial.costs {
        Some(costs) => costs.max_iterations(),
        None => MAX_ROUTING_ITERATIONS,
    };
    let ghost mut points: Seq<NegotiationPoint> = seq![
        NegotiationPoint {
            routes: begun,
            wire_history: workspace.wires.history@,
            pip_history: workspace.pips.history@,
            dirty: dirty@,
            priority: priority@,
            detector,
            log: Seq::empty(),
            wire_owners: workspace.wire_owners,
            pip_owners: workspace.pip_owners,
        },
    ];
    proof {
        let device = trial.graph.device;
        assert(workspace.wires.history@ =~= Seq::new(device.wires@.len(), |w: int| 0u32));
        assert(workspace.pips.history@ =~= Seq::new(device.pips@.len(), |p: int| 0u32));
        assert(dirty@ =~= Set::new(|c: Connection| is_unrouted(*trial, begun, c)));
        assert(is_counted(trial.graph.device, begun, *workspace));
        assert(trial.is_course(base, begun, points));
    }
    let ghost log = progress@;
    assert(progress@ =~= log + points.last().log);
    let ghost settled = all_done(*trial, begun) && within_capacity(trial.graph.device, begun);
    proof {
        assert(log.take(log.len() as int) =~= log);
        assert(0 * HISTORY_STEP == 0);
    }
    let mut iteration: u32 = 0;
    while iteration < limit
        invariant
            iteration <= limit,
            1 <= limit <= 32,
            limit == trial.iteration_limit(),
            trial.wf(),
            nets_have_work(trial.graph.design, trial.constraints),
            state.balanced(*workspace, *trial),
            dirty.wf(),
            priority.wf(),
            dirty_ok(*trial, dirty@),
            all_pending(*trial, state.routes@, dirty@),
            detector.wf(),
            states_ok(*trial, detector.states@),
            workspace.wires.history_at_most(iteration * HISTORY_STEP),
            workspace.pips.history_at_most(iteration * HISTORY_STEP),
            workspace.search.same_estimates(&old(workspace).search),
            lists_all(*trial, sorted@),
            base == old(workspace).search,
            trial.is_course(base, begun, points),
            progress@ == log + points.last().log,
            points.len() == iteration + 1,
            points.last() == (NegotiationPoint {
                routes: state.routes@,
                wire_history: workspace.wires.history@,
                pip_history: workspace.pips.history@,
                dirty: dirty@,
                priority: priority@,
                detector,
                log: points.last().log,
                wire_owners: workspace.wire_owners,
                pip_owners: workspace.pip_owners,
            }),
            log == old(progress)@,
            begun == routes@,
            settled == (all_done(*trial, begun) && within_capacity(trial.graph.device, begun)),
            extends_log(log, progress@),
            iteration == 0 ==> {
                &&& progress@ == log
                &&& all_done(*trial, begun) ==> dirty@ == Set::<Connection>::empty()
                &&& state.routes@ == begun
            },
            iteration > 0 ==> {
                &&& progress@.len() > log.len()
                &&& progress@[log.len() as int] matches RoutingProgress::Iteration {
                    iteration: number,
                    nets,
                } && number == 0 && (all_done(*trial, begun) ==> nets == 0)
                &&& trial.is_tight()
                &&& !settled
            },
        decreases limit - iteration,
    {
        let ghost earlier = progress@;
        let ghost point = points.last();
        let outcome = state.iterate(
            trial,
            workspace,
            &sorted,
            &priority,
            &dirty,
            iteration,
            progress,
            Ghost(base),
            Ghost(point),
        );
        proof {
            assert(earlier == progress@.take(earlier.len() as int));
            assert(progress@.take(log.len() as int) =~= earlier.take(log.len() as int));
            if iteration > 0 {
                assert(progress@[log.len() as int] == earlier[log.len() as int]);
            }
        }
        match outcome {
            Err(error) => {
                proof {
                    let events = choose|events: Seq<RoutingProgress>|
                        #[trigger] trial.stops(base, iteration as int, point, error, events)
                            && progress@ == earlier + events;
                    assert(progress@ =~= log + (point.log + events));
                    lemma_events_since(log, point.log + events, progress@);
                    assert(trial.is_course(base, begun, points));
                    assert(trial.stops(base, points.len() - 1, points.last(), error, events));
                }
                return Err(error);
            },
            Ok(()) => {},
        }
        let ghost events = choose|events: Seq<RoutingProgress>|
            #[trigger] trial.sweeps(
                base,
                iteration as int,
                point,
                state.stage(*workspace),
                events,
            ) && progress@ == earlier + events;
        let ghost last = state.stage(*workspace);
        if state.overused_wires.is_empty() && state.overused_pips.is_empty() {
            proof {
                state.lemma_within_capacity(*workspace, *trial);
                assert(trial.is_course(base, begun, points));
                assert(progress@ =~= log + (point.log + events));
                lemma_events_since(log, point.log + events, progress@);
                assert(trial.sweeps(base, points.len() - 1, points.last(), last, events));
            }
            return Ok(state.finish(Ghost(*trial)));
        }
        proof {
            state.lemma_overuse_is_tight(*workspace, *trial);
            if within_capacity(trial.graph.device, state.routes@) {
                state.lemma_no_overuse(*workspace, *trial);
            }
        }
        let (next, first) = state.choose_next(
            trial,
            workspace,
            &mut detector,
            Ghost(workspace.wires.history@),
            Ghost(workspace.pips.history@),
            Ghost(point.log + events),
        );
        proof {
            let device = trial.graph.device;
            let reached = NegotiationPoint {
                routes: state.routes@,
                wire_history: workspace.wires.history@,
                pip_history: workspace.pips.history@,
                dirty: next@,
                priority: first@,
                detector,
                log: point.log + events,
                wire_owners: workspace.wire_owners,
                pip_owners: workspace.pip_owners,
            };
            assert(progress@ =~= log + reached.log);
            assert(trial.sweeps(base, iteration as int, point, last, events));
            assert(trial.is_sequel(point.detector, last, reached));
            assert(workspace.wires.capacities@ =~= Seq::new(
                device.wires@.len(),
                |w: int| device.wires@[w].capacity,
            ));
            assert(workspace.pips.capacities@ =~= Seq::new(
                device.pips@.len(),
                |p: int| device.pips@[p].capacity,
            ));
            assert(trial.is_iteration(base, iteration as int, point, reached));
            trial.lemma_course_grows(base, begun, points, reached);
            points = points.push(reached);
        }
        dirty = next;
        priority = first;
        iteration = iteration + 1;
    }
    proof {
        assert(trial.is_course(base, begun, points));
        lemma_events_since(log, points.last().log, progress@);
        assert(state.balanced(*workspace, *trial));
    }
    Err(state.unresolved(trial))
}

} // verus!
