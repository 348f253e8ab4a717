//! Inputs of a routing trial and what its slots hold.

use std::sync::Arc;

use vstd::prelude::*;

use crate::device::UnifiedGraph;
use crate::error::PnrError;
use crate::model::{CellPinId, Connection, NetId};
use crate::net_growth::{costs_fit, NetRouter};
use crate::net_state::{is_trial, keeps, serves_net};
use crate::placement::{PinWireCache, Placement};
use crate::route::NetRoute;
use crate::routing_constraints::RoutingConstraints;
use crate::routing_costs::{RoutingCosts, MAX_ROUTING_ITERATIONS};
use crate::validation::constraints_fit;

verus! {

/// Inputs of one routing trial.
#[derive(Clone, Copy)]
pub struct Trial<'a> {
    /// Design and device.
    pub graph: UnifiedGraph<'a>,
    /// Placement that is routed.
    pub placement: &'a Placement,
    /// Wires of the placed pins.
    pub pin_wires: &'a PinWireCache,
    /// Immutable routes and forbidden PIPs.
    pub constraints: &'a RoutingConstraints,
    /// Delays and criticalities.
    pub costs: Option<&'a RoutingCosts>,
}

impl<'a> Trial<'a> {
    /// The inputs fit each other.
    pub open spec fn wf(&self) -> bool {
        &&& self.graph.wf()
        &&& self.placement.fits(self.graph.device)
        &&& self.pin_wires.holds(self.graph, self.placement)
        &&& self.constraints.wf()
        &&& constraints_fit(self.graph, self.placement, self.constraints)
        &&& self.costs matches Some(costs) ==> costs_fit(self.graph.device, costs)
    }

    /// Number of nets.
    pub open spec fn net_count(&self) -> int {
        self.graph.design.nets@.len() as int
    }

    /// The slot holds a route of its net, or its net has no immutable part.
    pub open spec fn slot_ok(&self, index: int, slot: Option<Arc<NetRoute>>) -> bool {
        match slot {
            Some(route) => keeps(
                self.graph,
                self.placement,
                self.constraints,
                NetId(index as usize),
                *route,
            ),
            None => !self.constraints.routes@.contains_key(NetId(index as usize)),
        }
    }

    /// The slot reaches the sink.
    pub open spec fn slot_reaches(&self, slot: Option<Arc<NetRoute>>, sink: CellPinId) -> bool {
        slot matches Some(route) && route.reaches(sink)
    }

    /// Every sink of the net is reached or to be routed.
    pub open spec fn slot_pending(
        &self,
        index: int,
        slot: Option<Arc<NetRoute>>,
        dirty: Set<Connection>,
    ) -> bool {
        forall|k: int|
            0 <= k < self.graph.design.nets@[index].sinks@.len() ==> self.slot_reaches(
                slot,
                #[trigger] self.graph.design.nets@[index].sinks@[k],
            ) || dirty.contains(
                Connection {
                    net: NetId(index as usize),
                    sink: self.graph.design.nets@[index].sinks@[k],
                },
            )
    }

    /// The slot serves its net.
    pub open spec fn slot_done(&self, index: int, slot: Option<Arc<NetRoute>>) -> bool {
        slot matches Some(route) && serves_net(
            self.graph,
            self.placement,
            self.constraints,
            NetId(index as usize),
            *route,
        )
    }

    /// Every slot holds a route of its net.
    pub open spec fn slots_ok(&self, routes: Seq<Option<Arc<NetRoute>>>) -> bool {
        &&& routes.len() == self.net_count()
        &&& forall|i: int| 0 <= i < routes.len() ==> self.slot_ok(i, #[trigger] routes[i])
    }

    /// Why the net could not be routed.
    pub open spec fn net_failed(&self, net: NetId, error: PnrError) -> bool {
        exists|router: NetRouter<'_>|
            {
                &&& #[trigger] is_trial(
                    router,
                    self.graph,
                    self.placement,
                    self.constraints,
                    self.costs,
                )
                &&& router.hard_occupancy is None
                &&& router.net_failure(net, error)
            }
    }

    /// Some resource cannot carry every net.
    pub open spec fn is_tight(&self) -> bool {
        ||| exists|w: int|
            0 <= w < self.graph.device.wires@.len() && (
            #[trigger] self.graph.device.wires@[w]).capacity < self.net_count()
        ||| exists|p: int|
            0 <= p < self.graph.device.pips@.len() && (
            #[trigger] self.graph.device.pips@[p]).capacity < self.net_count()
    }

    /// Why the trial failed.
    pub open spec fn failed(&self, error: PnrError) -> bool {
        match error {
            PnrError::CongestionNotResolved { iterations, .. } => self.is_tight() && iterations
                == self.iteration_limit(),
            _ => exists|i: int|
                0 <= i < self.net_count() && #[trigger] self.net_failed(NetId(i as usize), error),
        }
    }

    /// Iterations that the trial may take.
    pub open spec fn iteration_limit(&self) -> u32 {
        match self.costs {
            Some(costs) => costs.max_iterations,
            None => MAX_ROUTING_ITERATIONS,
        }
    }
}

} // verus!
