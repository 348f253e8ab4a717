//! Steps of the negotiation: releasing and routing one net.

use std::sync::Arc;

use vstd::prelude::*;

use crate::cost::negotiated_price;
use crate::course::{price_holds, prices_hold, slot_arcs, slot_released};
use crate::error::PnrError;
use crate::model::{Connection, NetId};
use crate::net_growth::NetRouter;
use crate::net_routing::holds_arc;
use crate::net_state::{
    arcs_kept, is_trial, lemma_arcs_slot_fits, lemma_grown_keeps, lemma_kept_resources, serves_net,
};
use crate::occupancy::{
    indices, lemma_users_positive, lemma_users_range, lemma_users_update, pip_sets, slot_pips,
    slot_wires, users, wire_sets, ResourceTable, HISTORY_STEP,
};
use crate::ordered::OrderedSet;
use crate::ownership::{are_claimed, are_released, claim_owners, release_owners};
use crate::release::{all_movable, preserve};
use crate::route::NetRoute;
use crate::routing_costs::{share, MAX_ROUTING_ITERATIONS};
use crate::search::{HardRoutingBlockers, RoutingResourceMetadata};
use crate::slots::{counter_full, enters_full, pip_table, wire_table};
use crate::stages::{claims, is_counted, is_release_step, Stage};
use crate::trial::Trial;
use crate::workspace::{lemma_sets_update, slot_fits, slots_fit, RoutingWorkspace};

verus! {

/// Routes under negotiation and the resources that they overuse.
pub struct Negotiation {
    /// Route of each net, once it has one.
    pub routes: Vec<Option<Arc<NetRoute>>>,
    /// Wires with more users than they can carry.
    pub overused_wires: OrderedSet<usize>,
    /// PIPs with more users than they can carry.
    pub overused_pips: OrderedSet<usize>,
}

impl Negotiation {
    /// Every slot holds a route of its net that fits the device.
    pub open spec fn slots_good(&self, workspace: RoutingWorkspace, trial: Trial<'_>) -> bool {
        &&& trial.slots_ok(self.routes@)
        &&& slots_fit(self.routes@, workspace.wire_count(), workspace.pip_count())
    }

    /// The workspace counts the routes of the trial and the trackers hold what is overused.
    pub open spec fn balanced(&self, workspace: RoutingWorkspace, trial: Trial<'_>) -> bool {
        &&& workspace.wf()
        &&& workspace.fits(trial.graph.device)
        &&& !workspace.resident_valid
        &&& self.slots_good(workspace, trial)
        &&& workspace.carries(self.routes@, &self.overused_wires, &self.overused_pips)
    }

    /// The routes with the owners in the workspace.
    pub open spec fn stage(&self, workspace: RoutingWorkspace) -> Stage {
        Stage {
            routes: self.routes@,
            wires: workspace.wire_owners,
            pips: workspace.pip_owners,
        }
    }

    /// Releases the dirty connections of one net.
    pub fn rip_up(
        &mut self,
        trial: &Trial<'_>,
        workspace: &mut RoutingWorkspace,
        index: usize,
        dirty: &OrderedSet<Connection>,
    )
        requires
            trial.wf(),
            old(self).balanced(*old(workspace), *trial),
            index < old(self).routes@.len(),
            dirty.wf(),
            all_movable(trial.constraints, dirty@),
        ensures
            final(self).balanced(*final(workspace), *trial),
            final(workspace).wires.history == old(workspace).wires.history,
            final(workspace).pips.history == old(workspace).pips.history,
            final(workspace).search == old(workspace).search,
            final(self).routes@ == old(self).routes@.update(
                index as int,
                final(self).routes@[index as int],
            ),
            trial.slot_pending(index as int, old(self).routes@[index as int], dirty@)
                ==> trial.slot_pending(index as int, final(self).routes@[index as int], dirty@),
            slot_released(
                old(self).routes@[index as int],
                dirty@,
                final(self).routes@[index as int],
            ),
            is_release_step(
                trial.graph.device,
                dirty@,
                index,
                old(self).stage(*old(workspace)),
                final(self).stage(*final(workspace)),
            ),
    {
        let ghost routes = self.routes@;
        let ghost slot = routes[index as int];
        let previous = match &self.routes[index] {
            None => {
                proof {
                    assert(self.routes@ =~= routes.update(index as int, routes[index as int]));
                    assert(is_counted(trial.graph.device, self.routes@, *workspace));
                }
                return ;
            },
            Some(route) => share(route),
        };
        proof {
            assert(trial.slot_ok(index as int, slot));
            assert(slot_fits(slot, workspace.wire_count(), workspace.pip_count()));
        }
        let preserved = Arc::new(
            preserve(
                &previous,
                dirty,
                Ghost(trial.graph),
                Ghost(trial.placement),
                Ghost(trial.constraints),
            ),
        );
        proof {
            lemma_kept_resources(&preserved, &previous);
            lemma_arcs_slot_fits(trial.graph, trial.placement, previous.net, preserved);
        }
        let earlier = Some(share(&previous));
        let later = Some(share(&preserved));
        let swapped = workspace.swap_slot(
            &earlier,
            &later,
            &mut self.overused_wires,
            &mut self.overused_pips,
            Ghost(routes),
            Ghost(index as int),
        );
        assert(swapped);
        self.retire_owners(workspace, &previous, &preserved);
        self.routes.set(index, Some(preserved));
        proof {
            assert(self.routes@ == routes.update(index as int, later));
            self.lemma_slots_update(*workspace, *trial, routes, index as int, later);
            assert(is_counted(trial.graph.device, self.routes@, *workspace));
            assert(NetId((index as int) as usize) == NetId(index));
            assert(previous.net == NetId(index));
        }
    }

    /// Takes the released resources of a net out of the owner indices.
    fn retire_owners(
        &self,
        workspace: &mut RoutingWorkspace,
        previous: &Arc<NetRoute>,
        preserved: &Arc<NetRoute>,
    )
        requires
            old(workspace).wf(),
            slot_fits(
                Some(*previous),
                old(workspace).wire_count(),
                old(workspace).pip_count(),
            ),
            preserved.wf(),
        ensures
            final(workspace).wf(),
            *final(workspace) == (RoutingWorkspace {
                wire_owners: final(workspace).wire_owners,
                pip_owners: final(workspace).pip_owners,
                ..*old(workspace)
            }),
            are_released(
                old(workspace).wire_owners,
                indices(previous.wire_refs).difference(indices(preserved.wire_refs)),
                previous.net,
                old(workspace).wires,
                final(workspace).wire_owners,
            ),
            are_released(
                old(workspace).pip_owners,
                indices(previous.pip_refs).difference(indices(preserved.pip_refs)),
                previous.net,
                old(workspace).pips,
                final(workspace).pip_owners,
            ),
    {
        proof {
            assert forall|r: int| #[trigger] indices(previous.wire_refs).contains(r) implies 0 <= r
                < workspace.wire_count() by {
                assert(slot_wires(Some(*previous)).contains(r));
            }
            assert forall|r: int| #[trigger] indices(previous.pip_refs).contains(r) implies 0 <= r
                < workspace.pip_count() by {
                assert(slot_pips(Some(*previous)).contains(r));
            }
        }
        release_owners(
            &mut workspace.wire_owners,
            &previous.wire_refs,
            &preserved.wire_refs,
            previous.net,
            &workspace.wires,
        );
        release_owners(
            &mut workspace.pip_owners,
            &previous.pip_refs,
            &preserved.pip_refs,
            previous.net,
            &workspace.pips,
        );
    }

    /// Enters the new resources of a net into the owner indices.
    pub(crate) fn enter_owners(
        &self,
        workspace: &mut RoutingWorkspace,
        route: &Arc<NetRoute>,
        preserved: &Option<Arc<NetRoute>>,
        net: NetId,
    )
        requires
            old(workspace).wf(),
            slot_fits(Some(*route), old(workspace).wire_count(), old(workspace).pip_count()),
            slot_fits(*preserved, old(workspace).wire_count(), old(workspace).pip_count()),
        ensures
            final(workspace).wf(),
            *final(workspace) == (RoutingWorkspace {
                wire_owners: final(workspace).wire_owners,
                pip_owners: final(workspace).pip_owners,
                ..*old(workspace)
            }),
            are_claimed(
                old(workspace).wire_owners,
                slot_wires(Some(*route)).difference(slot_wires(*preserved)),
                net,
                old(workspace).wires,
                final(workspace).wire_owners,
            ),
            are_claimed(
                old(workspace).pip_owners,
                slot_pips(Some(*route)).difference(slot_pips(*preserved)),
                net,
                old(workspace).pips,
                final(workspace).pip_owners,
            ),
    {
        proof {
            assert forall|r: int| #[trigger] indices(route.wire_refs).contains(r) implies 0 <= r
                < workspace.wire_count() by {
                assert(slot_wires(Some(*route)).contains(r));
            }
            assert forall|r: int| #[trigger] indices(route.pip_refs).contains(r) implies 0 <= r
                < workspace.pip_count() by {
                assert(slot_pips(Some(*route)).contains(r));
            }
        }
        claim_owners(
            &mut workspace.wire_owners,
            &route.wire_refs,
            wire_table(preserved),
            net,
            &workspace.wires,
        );
        claim_owners(
            &mut workspace.pip_owners,
            &route.pip_refs,
            pip_table(preserved),
            net,
            &workspace.pips,
        );
    }

    /// Replacing a good slot by a good one leaves every slot good.
    proof fn lemma_slots_update(
        &self,
        workspace: RoutingWorkspace,
        trial: Trial<'_>,
        routes: Seq<Option<Arc<NetRoute>>>,
        index: int,
        slot: Option<Arc<NetRoute>>,
    )
        requires
            trial.slots_ok(routes),
            slots_fit(routes, workspace.wire_count(), workspace.pip_count()),
            0 <= index < routes.len(),
            self.routes@ == routes.update(index, slot),
            trial.slot_ok(index, slot),
            slot_fits(slot, workspace.wire_count(), workspace.pip_count()),
        ensures
            self.slots_good(workspace, trial),
    {
        assert forall|i: int| 0 <= i < self.routes@.len() implies trial.slot_ok(
            i,
            #[trigger] self.routes@[i],
        ) by {
            if i != index {
                assert(trial.slot_ok(i, routes[i]));
            }
        }
        assert forall|i: int| 0 <= i < self.routes@.len() implies slot_fits(
            #[trigger] self.routes@[i],
            workspace.wire_count(),
            workspace.pip_count(),
        ) by {
            if i != index {
                assert(slot_fits(routes[i], workspace.wire_count(), workspace.pip_count()));
            }
        }
    }

    /// Grows one net from its preserved part.
    fn grow(
        &self,
        trial: &Trial<'_>,
        workspace: &mut RoutingWorkspace,
        index: usize,
        preserved: &Option<Arc<NetRoute>>,
        first_iteration: bool,
    ) -> (result: Result<Arc<NetRoute>, PnrError>)
        requires
            trial.wf(),
            old(workspace).wf(),
            old(workspace).fits(trial.graph.device),
            index < trial.net_count(),
            trial.slot_ok(index as int, *preserved),
        ensures
            final(workspace).wf(),
            *final(workspace) == (RoutingWorkspace {
                search: final(workspace).search,
                tree_arrival_ps: final(workspace).tree_arrival_ps,
                ..*old(workspace)
            }),
            final(workspace).search.same_estimates(&old(workspace).search),
            match result {
                Ok(route) => {
                    &&& serves_net(
                        trial.graph,
                        trial.placement,
                        trial.constraints,
                        NetId(index),
                        *route,
                    )
                    &&& preserved matches Some(kept) ==> arcs_kept(kept.arcs@, route.arcs@)
                    &&& trial.buys(
                        *old(workspace),
                        first_iteration,
                        NetId(index),
                        slot_arcs(*preserved),
                        Ok(*route),
                    )
                },
                Err(error) => {
                    &&& trial.net_failed(NetId(index), error)
                    &&& !(error is CongestionNotResolved)
                    &&& trial.buys(
                        *old(workspace),
                        first_iteration,
                        NetId(index),
                        slot_arcs(*preserved),
                        Err(error),
                    )
                },
            },
    {
        let net = NetId(index);
        assert(NetId((index as int) as usize) == net);
        let router = NetRouter {
            graph: trial.graph,
            placement: trial.placement,
            pin_wires: trial.pin_wires,
            wire_congestion: workspace.wires.congestion.as_slice(),
            pip_congestion: workspace.pips.congestion.as_slice(),
            blocked_pip_words: trial.constraints.blocked_pip_words(),
            hard_occupancy: None,
            allow_alternate_source: first_iteration,
            costs: trial.costs,
            metadata: RoutingResourceMetadata {
                wire_points: workspace.wire_points.as_slice(),
                wire_capacities: workspace.wires.capacities.as_slice(),
                pip_capacities: workspace.pips.capacities.as_slice(),
            },
        };
        let fixed: Option<&NetRoute> = match preserved {
            Some(route) => Some(&**route),
            None => None,
        };
        let mut blockers = HardRoutingBlockers::new();
        proof {
            assert(is_trial(
                router,
                trial.graph,
                trial.placement,
                trial.constraints,
                trial.costs,
            ));
            assert(router.fixed_fits(net, fixed));
            reveal(Trial::buys);
            assert(trial.is_buyer(router, *old(workspace), first_iteration));
            assert(NetRouter::fixed_arcs(fixed) == slot_arcs(*preserved));
        }
        match router.route_net(
            fixed,
            net,
            &mut workspace.search,
            &mut workspace.tree_arrival_ps,
            &mut blockers,
        ) {
            Err(error) => {
                assert(router.strands(
                    net,
                    slot_arcs(*preserved),
                    old(workspace).search,
                    error,
                    blockers.met(),
                ));
                Err(error)
            },
            Ok(route) => {
                proof {
                    assert(router.grows(
                        net,
                        slot_arcs(*preserved),
                        old(workspace).search,
                        route,
                        blockers.met(),
                    ));
                    lemma_grown_keeps(
                        router,
                        trial.graph,
                        trial.placement,
                        trial.constraints,
                        trial.costs,
                        net,
                        fixed,
                        route,
                    );
                    if let Some(kept) = preserved {
                        assert forall|f: int| 0 <= f < kept.arcs@.len() implies holds_arc(
                            route.arcs@,
                            #[trigger] kept.arcs@[f],
                        ) by {
                            assert(NetRouter::fixed_arcs(fixed)[f] == kept.arcs@[f]);
                        }
                    }
                }
                Ok(Arc::new(route))
            },
        }
    }

    /// Routes one net from its preserved part and adds it to the occupancy.
    pub fn route_one(
        &mut self,
        trial: &Trial<'_>,
        workspace: &mut RoutingWorkspace,
        index: usize,
        first_iteration: bool,
        present: u32,
    ) -> (result: Result<(), PnrError>)
        requires
            trial.wf(),
            old(self).balanced(*old(workspace), *trial),
            index < old(self).routes@.len(),
            old(workspace).wires.history_at_most(32 * HISTORY_STEP),
            old(workspace).pips.history_at_most(32 * HISTORY_STEP),
            present <= 4096,
            prices_hold(old(workspace).wires, present as int),
            prices_hold(old(workspace).pips, present as int),
        ensures
            final(workspace).wf(),
            final(workspace).fits(trial.graph.device),
            !final(workspace).resident_valid,
            final(workspace).wires.history == old(workspace).wires.history,
            final(workspace).pips.history == old(workspace).pips.history,
            final(workspace).search.same_estimates(&old(workspace).search),
            match result {
                Ok(()) => {
                    &&& final(self).balanced(*final(workspace), *trial)
                    &&& trial.slot_done(index as int, final(self).routes@[index as int])
                    &&& final(self).routes@ == old(self).routes@.update(
                        index as int,
                        final(self).routes@[index as int],
                    )
                    &&& trial.buys(
                        *old(workspace),
                        first_iteration,
                        NetId(index),
                        slot_arcs(old(self).routes@[index as int]),
                        Ok(*(final(self).routes@[index as int]->0)),
                    )
                    &&& prices_hold(final(workspace).wires, present as int)
                    &&& prices_hold(final(workspace).pips, present as int)
                    &&& claims(
                        trial.graph.device,
                        index,
                        old(self).stage(*old(workspace)),
                        final(self).stage(*final(workspace)),
                    )
                },
                Err(error) => {
                    &&& trial.failed(error)
                    &&& error is CongestionNotResolved ==> exists|route: Arc<NetRoute>|
                        trial.buys(
                            *old(workspace),
                            first_iteration,
                            NetId(index),
                            slot_arcs(old(self).routes@[index as int]),
                            Ok(*route),
                        ) && slot_fits(
                            Some(route),
                            trial.graph.device.wires@.len() as int,
                            trial.graph.device.pips@.len() as int,
                        ) && #[trigger] enters_full(
                            old(self).routes@,
                            index as int,
                            Some(route),
                        )
                    &&& !(error is CongestionNotResolved) ==> trial.buys(
                        *old(workspace),
                        first_iteration,
                        NetId(index),
                        slot_arcs(old(self).routes@[index as int]),
                        Err(error),
                    )
                },
            },
    {
        let ghost routes = self.routes@;
        let ghost slot = routes[index as int];
        let ghost start = *workspace;
        let net = NetId(index);
        let preserved = match &self.routes[index] {
            Some(route) => Some(share(route)),
            None => None,
        };
        proof {
            assert(trial.slot_ok(index as int, slot));
            assert(slot_fits(slot, workspace.wire_count(), workspace.pip_count()));
            assert(NetId((index as int) as usize) == net);
        }
        let route = match self.grow(trial, workspace, index, &preserved, first_iteration) {
            Err(error) => {
                proof {
                    assert(trial.net_failed(NetId((index as int) as usize), error));
                }
                return Err(error);
            },
            Ok(route) => route,
        };
        proof {
            lemma_arcs_slot_fits(trial.graph, trial.placement, net, route);
        }
        let later = Some(share(&route));
        if !workspace.swap_slot(
            &preserved,
            &later,
            &mut self.overused_wires,
            &mut self.overused_pips,
            Ghost(routes),
            Ghost(index as int),
        ) {
            proof {
                lemma_full_counter(*trial, routes, index as int);
                assert(later == Some(route));
                assert(enters_full(routes, index as int, Some(route)));
            }
            return Err(self.unresolved(trial));
        }
        proof {
            assert(later == Some(route));
            if let Some(kept) = &preserved {
                lemma_kept_resources(&**kept, &*route);
            }
        }
        self.settle(
            trial,
            workspace,
            index,
            &preserved,
            route,
            present,
            Ghost(start.wires),
            Ghost(start.pips),
        );
        Ok(())
    }

    /// Prices the resources of a counted route and puts it into its slot.
    fn settle(
        &mut self,
        trial: &Trial<'_>,
        workspace: &mut RoutingWorkspace,
        index: usize,
        preserved: &Option<Arc<NetRoute>>,
        route: Arc<NetRoute>,
        present: u32,
        Ghost(wires): Ghost<ResourceTable>,
        Ghost(pips): Ghost<ResourceTable>,
    )
        requires
            index < old(self).routes@.len(),
            old(self).slots_good(*old(workspace), *trial),
            old(self).routes@[index as int] == *preserved,
            trial.slot_ok(index as int, Some(route)),
            slot_fits(Some(route), old(workspace).wire_count(), old(workspace).pip_count()),
            slot_fits(*preserved, old(workspace).wire_count(), old(workspace).pip_count()),
            slot_wires(*preserved).subset_of(slot_wires(Some(route))),
            slot_pips(*preserved).subset_of(slot_pips(Some(route))),
            old(workspace).wf(),
            old(workspace).fits(trial.graph.device),
            !old(workspace).resident_valid,
            old(workspace).carries(
                old(self).routes@.update(index as int, Some(route)),
                &old(self).overused_wires,
                &old(self).overused_pips,
            ),
            old(workspace).wires.history_at_most(32 * HISTORY_STEP),
            old(workspace).pips.history_at_most(32 * HISTORY_STEP),
            present <= 4096,
            wires.wf(old(workspace).wire_count()),
            wires.counts(wire_sets(old(self).routes@)),
            wires.capacities == old(workspace).wires.capacities,
            wires.history == old(workspace).wires.history,
            wires.congestion == old(workspace).wires.congestion,
            prices_hold(wires, present as int),
            pips.wf(old(workspace).pip_count()),
            pips.counts(pip_sets(old(self).routes@)),
            pips.capacities == old(workspace).pips.capacities,
            pips.history == old(workspace).pips.history,
            pips.congestion == old(workspace).pips.congestion,
            prices_hold(pips, present as int),
        ensures
            final(self).balanced(*final(workspace), *trial),
            final(self).routes@ == old(self).routes@.update(index as int, Some(route)),
            final(workspace).wires.history == old(workspace).wires.history,
            final(workspace).pips.history == old(workspace).pips.history,
            final(workspace).search == old(workspace).search,
            prices_hold(final(workspace).wires, present as int),
            prices_hold(final(workspace).pips, present as int),
            claims(
                trial.graph.device,
                index,
                old(self).stage(*old(workspace)),
                final(self).stage(*final(workspace)),
            ),
    {
        let ghost routes = self.routes@;
        let ghost later = Some(route);
        let net = NetId(index);
        proof {
            lemma_used(*workspace, routes.update(index as int, later), index as int, route);
        }
        let ghost counted = *workspace;
        workspace.wires.price_keys(&route.wire_refs, present);
        workspace.pips.price_keys(&route.pip_refs, present);
        self.enter_owners(workspace, &route, preserved, net);
        self.routes.set(index, Some(route));
        proof {
            assert(self.routes@ == routes.update(index as int, later));
            self.lemma_slots_update(*workspace, *trial, routes, index as int, later);
            lemma_same_counts(
                counted,
                *workspace,
                self.routes@,
                self.overused_wires,
                self.overused_pips,
            );
            lemma_sets_update(routes, index as int, later);
            lemma_prices_kept(
                wires,
                workspace.wires,
                wire_sets(routes),
                index as int,
                slot_wires(later),
                present as int,
            );
            lemma_prices_kept(
                pips,
                workspace.pips,
                pip_sets(routes),
                index as int,
                slot_pips(later),
                present as int,
            );
            assert(is_counted(trial.graph.device, self.routes@, *workspace));
        }
    }

    /// The report of congestion that is left.
    pub fn unresolved(&self, trial: &Trial<'_>) -> (result: PnrError)
        ensures
            result matches PnrError::CongestionNotResolved {
                iterations,
                overused_wires,
                overused_pips,
            } && iterations == trial.iteration_limit() && overused_wires
                == self.overused_wires.ordered().len() && overused_pips
                == self.overused_pips.ordered().len(),
    {
        let iterations: u32 = match trial.costs {
            Some(costs) => costs.max_iterations(),
            None => MAX_ROUTING_ITERATIONS,
        };
        PnrError::CongestionNotResolved {
            iterations,
            overused_wires: self.overused_wires.len(),
            overused_pips: self.overused_pips.len(),
        }
    }
}

/// The resources of a counted route have a user.
proof fn lemma_used(
    workspace: RoutingWorkspace,
    routes: Seq<Option<Arc<NetRoute>>>,
    index: int,
    route: Arc<NetRoute>,
)
    requires
        0 <= index < routes.len(),
        routes[index] == Some(route),
        slot_fits(Some(route), workspace.wire_count(), workspace.pip_count()),
        workspace.wf(),
        workspace.wires.counts(wire_sets(routes)),
        workspace.pips.counts(pip_sets(routes)),
    ensures
        forall|r: int| #[trigger]
            indices(route.wire_refs).contains(r) ==> 0 <= r < workspace.wires.capacities@.len()
                && workspace.wires.occupancy@[r] >= 1,
        forall|r: int| #[trigger]
            indices(route.pip_refs).contains(r) ==> 0 <= r < workspace.pips.capacities@.len()
                && workspace.pips.occupancy@[r] >= 1,
{
    assert forall|r: int| #[trigger] indices(route.wire_refs).contains(r) implies 0 <= r
        < workspace.wires.capacities@.len() && workspace.wires.occupancy@[r] >= 1 by {
        assert(slot_wires(Some(route)).contains(r));
        assert(wire_sets(routes)[index] == slot_wires(routes[index]));
        lemma_users_positive(wire_sets(routes), index, r);
        assert(workspace.wires.occupancy@[r] == users(wire_sets(routes), r));
    }
    assert forall|r: int| #[trigger] indices(route.pip_refs).contains(r) implies 0 <= r
        < workspace.pips.capacities@.len() && workspace.pips.occupancy@[r] >= 1 by {
        assert(slot_pips(Some(route)).contains(r));
        assert(pip_sets(routes)[index] == slot_pips(routes[index]));
        lemma_users_positive(pip_sets(routes), index, r);
        assert(workspace.pips.occupancy@[r] == users(pip_sets(routes), r));
    }
}

/// Where one set grows and its resources are priced again, every price holds.
proof fn lemma_prices_kept(
    before: ResourceTable,
    after: ResourceTable,
    sets: Seq<Set<int>>,
    index: int,
    later: Set<int>,
    present: int,
)
    requires
        0 <= index < sets.len(),
        sets[index].subset_of(later),
        before.wf(before.capacities@.len() as int),
        after.wf(before.capacities@.len() as int),
        before.counts(sets),
        after.counts(sets.update(index, later)),
        after.capacities == before.capacities,
        after.history == before.history,
        prices_hold(before, present),
        forall|r: int|
            0 <= r < after.congestion@.len() ==> #[trigger] after.congestion@[r]
                == if later.contains(r) {
                negotiated_price(
                    after.occupancy@[r] as int,
                    after.capacities@[r] as int,
                    after.history@[r] as int,
                    present,
                )
            } else {
                before.congestion@[r] as int
            },
    ensures
        prices_hold(after, present),
{
    assert forall|r: int| 0 <= r < after.capacities@.len() implies #[trigger] price_holds(
        after,
        present,
        r,
    ) by {
        assert(price_holds(before, present, r));
        assert(after.congestion@.len() == after.capacities@.len());
        let price = after.congestion@[r];
        if !later.contains(r) {
            lemma_users_update(sets, index, later, r);
            assert(before.occupancy@[r] == users(sets, r));
            assert(after.occupancy@[r] == users(sets.update(index, later), r));
        }
    }
}

/// What is counted depends on occupancy and capacity alone.
pub proof fn lemma_same_counts(
    before: RoutingWorkspace,
    after: RoutingWorkspace,
    routes: Seq<Option<Arc<NetRoute>>>,
    overused_wires: OrderedSet<usize>,
    overused_pips: OrderedSet<usize>,
)
    requires
        before.carries(routes, &overused_wires, &overused_pips),
        after.wires.occupancy == before.wires.occupancy,
        after.wires.capacities == before.wires.capacities,
        after.pips.occupancy == before.pips.occupancy,
        after.pips.capacities == before.pips.capacities,
    ensures
        after.carries(routes, &overused_wires, &overused_pips),
{
    assert forall|r: int| 0 <= r < after.wires.occupancy@.len() implies #[trigger] after.wires.occupancy@[r]
        == users(wire_sets(routes), r) by {
        assert(before.wires.occupancy@[r] == users(wire_sets(routes), r));
    }
    assert forall|r: int| 0 <= r < after.pips.occupancy@.len() implies #[trigger] after.pips.occupancy@[r]
        == users(pip_sets(routes), r) by {
        assert(before.pips.occupancy@[r] == users(pip_sets(routes), r));
    }
}

/// A full counter means that some resource cannot carry every net.
proof fn lemma_full_counter(
    trial: Trial<'_>,
    routes: Seq<Option<Arc<NetRoute>>>,
    index: int,
)
    requires
        routes.len() == trial.net_count(),
        0 <= index < routes.len(),
        counter_full(
            routes,
            index,
            trial.graph.device.wires@.len() as int,
            trial.graph.device.pips@.len() as int,
        ),
    ensures
        trial.is_tight(),
{
    let device = trial.graph.device;
    if exists|r: int|
        0 <= r < device.wires@.len() && #[trigger] users(wire_sets(routes), r) >= u16::MAX
            && !slot_wires(routes[index]).contains(r) {
        let r = choose|r: int|
            0 <= r < device.wires@.len() && #[trigger] users(wire_sets(routes), r) >= u16::MAX
                && !slot_wires(routes[index]).contains(r);
        let sets = wire_sets(routes);
        let more = slot_wires(routes[index]).insert(r);
        lemma_users_update(sets, index, more, r);
        lemma_users_range(sets.update(index, more), r);
        assert(sets[index] == slot_wires(routes[index]));
        assert(device.wires@[r].capacity < trial.net_count());
    } else {
        let r = choose|r: int|
            0 <= r < device.pips@.len() && #[trigger] users(pip_sets(routes), r) >= u16::MAX
                && !slot_pips(routes[index]).contains(r);
        let sets = pip_sets(routes);
        let more = slot_pips(routes[index]).insert(r);
        lemma_users_update(sets, index, more, r);
        lemma_users_range(sets.update(index, more), r);
        assert(sets[index] == slot_pips(routes[index]));
        assert(device.pips@[r].capacity < trial.net_count());
    }
}

} // verus!
