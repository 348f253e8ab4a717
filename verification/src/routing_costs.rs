//! Characterized costs of timing-driven negotiated routing.

use std::sync::Arc;

use vstd::prelude::*;

use crate::model::{CellPinId, Connection, NetId, PipId};
use crate::ordered::{OrderedMap, OrderedSet};

verus! {

/// Largest number of negotiated-congestion iterations.
pub const MAX_ROUTING_ITERATIONS: u32 = 32;

/// Characterized costs used by timing-driven negotiated routing.
#[derive(Clone, Debug, PartialEq, Eq)]
pub struct RoutingCosts {
    /// Maximum delay of every PIP.
    pub pip_delays_ps: Arc<Vec<u32>>,
    /// Minimum delay of every PIP.
    pub pip_min_delays_ps: Arc<Vec<u32>>,
    /// Criticality of each timed net.
    pub net_criticalities: OrderedMap<NetId, u64>,
    /// Minimum route delay of each hold-repaired sink.
    pub sink_min_delays_ps: OrderedMap<Connection, u64>,
    /// Criticality of each timed driver-to-sink arc.
    pub sink_criticalities: OrderedMap<Connection, u64>,
    /// Nets routed with the detailed delay quantum.
    pub detailed_timing_nets: OrderedSet<NetId>,
    /// Delay quantum of the detailed timing nets.
    pub detailed_delay_quantum_ps: u64,
    /// Long-line coefficient of alternate-source recovery.
    pub alternate_source_delay_per_tile_ps: Option<u64>,
    /// Iteration limit of one routing trial.
    pub max_iterations: u32,
}

/// Another owner of one shared value.
///
/// Calls `Arc::clone`, which hands out a second pointer to the same value.
/// The contract claims that the value behind the new pointer is the value
/// behind the given one.
#[verifier::external_body]
pub(crate) fn share<T>(value: &Arc<T>) -> (result: Arc<T>)
    ensures
        *result == **value,
{
    Arc::clone(value)
}

impl RoutingCosts {
    /// The tables are ordered and the iteration limit is one that the negotiator accepts.
    pub open spec fn wf(&self) -> bool {
        &&& self.net_criticalities.wf()
        &&& self.sink_min_delays_ps.wf()
        &&& self.sink_criticalities.wf()
        &&& self.detailed_timing_nets.wf()
        &&& 1 <= self.max_iterations <= MAX_ROUTING_ITERATIONS
    }

    /// Creates costs indexed by stable PIP and logical net IDs.
    pub fn new(pip_delays_ps: Vec<u32>, net_criticalities: OrderedMap<NetId, u64>) -> (result: Self)
        requires
            net_criticalities.wf(),
        ensures
            result.wf(),
            *result.pip_delays_ps == pip_delays_ps,
            *result.pip_min_delays_ps == pip_delays_ps,
            result.net_criticalities == net_criticalities,
            result.sink_min_delays_ps@ == Map::<Connection, u64>::empty(),
            result.sink_criticalities@ == Map::<Connection, u64>::empty(),
            result.detailed_timing_nets@ == Set::<NetId>::empty(),
            result.detailed_delay_quantum_ps == 1,
            result.alternate_source_delay_per_tile_ps is None,
            result.max_iterations == MAX_ROUTING_ITERATIONS,
    {
        let pip_delays_ps = Arc::new(pip_delays_ps);
        RoutingCosts {
            pip_min_delays_ps: share(&pip_delays_ps),
            pip_delays_ps,
            net_criticalities,
            sink_min_delays_ps: OrderedMap::new(),
            sink_criticalities: OrderedMap::new(),
            detailed_timing_nets: OrderedSet::new(),
            detailed_delay_quantum_ps: 1,
            alternate_source_delay_per_tile_ps: None,
            max_iterations: MAX_ROUTING_ITERATIONS,
        }
    }

    /// Estimated maximum delay for every physical PIP.
    pub fn pip_delays_ps(&self) -> (result: &[u32])
        ensures
            result@ == self.pip_delays_ps@,
    {
        self.pip_delays_ps.as_slice()
    }

    /// Replaces minimum-corner PIP delays used for hold repair.
    pub fn set_pip_min_delays_ps(&mut self, pip_min_delays_ps: Vec<u32>)
        ensures
            *final(self) == (RoutingCosts {
                pip_min_delays_ps: Arc::new(pip_min_delays_ps),
                ..*old(self)
            }),
    {
        self.pip_min_delays_ps = Arc::new(pip_min_delays_ps);
    }

    /// Estimated minimum delay for every physical PIP.
    pub fn pip_min_delays_ps(&self) -> (result: &[u32])
        ensures
            result@ == self.pip_min_delays_ps@,
    {
        self.pip_min_delays_ps.as_slice()
    }

    /// Caps negotiated-congestion iterations for this routing trial.
    ///
    /// Full routing defaults to the largest budget. Callers that evaluate
    /// disposable local candidates can use a smaller cap, so that an
    /// infeasible move fails quickly.
    pub fn set_max_iterations(&mut self, max_iterations: u32)
        ensures
            *final(self) == (RoutingCosts {
                max_iterations: if max_iterations < 1 {
                    1
                } else if max_iterations > MAX_ROUTING_ITERATIONS {
                    MAX_ROUTING_ITERATIONS
                } else {
                    max_iterations
                },
                ..*old(self)
            }),
            1 <= final(self).max_iterations <= MAX_ROUTING_ITERATIONS,
    {
        if max_iterations < 1 {
            self.max_iterations = 1;
        } else if max_iterations > MAX_ROUTING_ITERATIONS {
            self.max_iterations = MAX_ROUTING_ITERATIONS;
        } else {
            self.max_iterations = max_iterations;
        }
    }

    /// Restores the full negotiated-congestion iteration budget.
    pub fn reset_max_iterations(&mut self)
        ensures
            *final(self) == (RoutingCosts { max_iterations: MAX_ROUTING_ITERATIONS, ..*old(self) }),
    {
        self.max_iterations = MAX_ROUTING_ITERATIONS;
    }

    /// Negotiated-congestion iteration limit for this routing trial.
    pub fn max_iterations(&self) -> (result: u32)
        ensures
            result == self.max_iterations,
    {
        self.max_iterations
    }

    /// Criticality weights indexed by logical net.
    pub fn net_criticalities(&self) -> (result: &OrderedMap<NetId, u64>)
        ensures
            *result == self.net_criticalities,
    {
        &self.net_criticalities
    }

    /// Replaces logical-net criticalities while retaining the device delay table.
    pub fn set_net_criticalities(&mut self, net_criticalities: OrderedMap<NetId, u64>)
        ensures
            *final(self) == (RoutingCosts { net_criticalities, ..*old(self) }),
    {
        self.net_criticalities = net_criticalities;
    }

    /// Replaces per-sink minimum route delays used for hold repair.
    pub fn set_sink_min_delays_ps(&mut self, sink_min_delays_ps: OrderedMap<Connection, u64>)
        ensures
            *final(self) == (RoutingCosts { sink_min_delays_ps, ..*old(self) }),
    {
        self.sink_min_delays_ps = sink_min_delays_ps;
    }

    /// Per-sink minimum route delays used for hold repair.
    pub fn sink_min_delays_ps(&self) -> (result: &OrderedMap<Connection, u64>)
        ensures
            *result == self.sink_min_delays_ps,
    {
        &self.sink_min_delays_ps
    }

    /// Replaces setup criticalities for individual driver-to-sink arcs.
    pub fn set_sink_criticalities(&mut self, sink_criticalities: OrderedMap<Connection, u64>)
        ensures
            *final(self) == (RoutingCosts { sink_criticalities, ..*old(self) }),
    {
        self.sink_criticalities = sink_criticalities;
    }

    /// Setup criticalities for individual driver-to-sink arcs.
    pub fn sink_criticalities(&self) -> (result: &OrderedMap<Connection, u64>)
        ensures
            *result == self.sink_criticalities,
    {
        &self.sink_criticalities
    }

    /// Replaces the nets routed with exact picosecond delay resolution.
    pub fn set_detailed_timing_nets(&mut self, detailed_timing_nets: OrderedSet<NetId>)
        ensures
            *final(self) == (RoutingCosts { detailed_timing_nets, ..*old(self) }),
    {
        self.detailed_timing_nets = detailed_timing_nets;
    }

    /// Nets routed with exact picosecond delay resolution.
    pub fn detailed_timing_nets(&self) -> (result: &OrderedSet<NetId>)
        ensures
            *result == self.detailed_timing_nets,
    {
        &self.detailed_timing_nets
    }

    /// Sets the positive delay quantum used only for detailed timing nets.
    pub fn set_detailed_delay_quantum_ps(&mut self, detailed_delay_quantum_ps: u64)
        ensures
            *final(self) == (RoutingCosts { detailed_delay_quantum_ps, ..*old(self) }),
    {
        self.detailed_delay_quantum_ps = detailed_delay_quantum_ps;
    }

    /// Enables a characterized long-line lower estimate for recovering a
    /// faster source of a timing-driven route tree; zero disables it.
    pub fn set_alternate_source_delay_per_tile_ps(&mut self, delay_per_tile_ps: u64)
        ensures
            *final(self) == (RoutingCosts {
                alternate_source_delay_per_tile_ps: if delay_per_tile_ps == 0 {
                    None
                } else {
                    Some(delay_per_tile_ps)
                },
                ..*old(self)
            }),
    {
        if delay_per_tile_ps == 0 {
            self.alternate_source_delay_per_tile_ps = None;
        } else {
            self.alternate_source_delay_per_tile_ps = Some(delay_per_tile_ps);
        }
    }

    /// Characterized long-line coefficient for alternate-source recovery.
    pub fn alternate_source_delay_per_tile_ps(&self) -> (result: Option<u64>)
        ensures
            result == self.alternate_source_delay_per_tile_ps,
    {
        self.alternate_source_delay_per_tile_ps
    }
}

/// Criticality of a net: zero where it is not timed.
pub open spec fn net_criticality(costs: Option<&RoutingCosts>, net: NetId) -> u64 {
    match costs {
        Some(costs) => if costs.net_criticalities@.contains_key(net) {
            costs.net_criticalities@[net]
        } else {
            0
        },
        None => 0,
    }
}

/// Criticality of a driver-to-sink arc: its own, or else that of its net.
pub open spec fn arc_criticality(
    costs: Option<&RoutingCosts>,
    net: NetId,
    sink: CellPinId,
) -> u64 {
    match costs {
        Some(table) => if table.sink_criticalities@.contains_key(Connection { net, sink }) {
            table.sink_criticalities@[Connection { net, sink }]
        } else {
            net_criticality(costs, net)
        },
        None => 0,
    }
}

/// Minimum route delay of a sink: zero where the sink needs no hold repair.
pub open spec fn sink_minimum(costs: Option<&RoutingCosts>, net: NetId, sink: CellPinId) -> u64 {
    match costs {
        Some(table) => if table.sink_min_delays_ps@.contains_key(Connection { net, sink }) {
            table.sink_min_delays_ps@[Connection { net, sink }]
        } else {
            0
        },
        None => 0,
    }
}

/// Criticality of a net: zero where it is not timed.
pub fn routing_criticality(costs: Option<&RoutingCosts>, net: NetId) -> (result: u64)
    requires
        costs matches Some(costs) ==> costs.wf(),
    ensures
        result == net_criticality(costs, net),
{
    match costs {
        Some(costs) => match costs.net_criticalities.get(net) {
            Some(criticality) => *criticality,
            None => 0,
        },
        None => 0,
    }
}

/// Criticality of a driver-to-sink arc: its own, or else that of its net.
pub fn routing_arc_criticality(costs: Option<&RoutingCosts>, net: NetId, sink: CellPinId) -> (result:
    u64)
    requires
        costs matches Some(costs) ==> costs.wf(),
    ensures
        result == arc_criticality(costs, net, sink),
{
    match costs {
        Some(table) => match table.sink_criticalities.get(Connection { net, sink }) {
            Some(criticality) => *criticality,
            None => routing_criticality(costs, net),
        },
        None => 0,
    }
}

/// Minimum route delay of a sink: zero where the sink needs no hold repair.
pub fn routing_sink_minimum(costs: Option<&RoutingCosts>, net: NetId, sink: CellPinId) -> (result:
    u64)
    requires
        costs matches Some(costs) ==> costs.wf(),
    ensures
        result == sink_minimum(costs, net, sink),
{
    match costs {
        Some(table) => match table.sink_min_delays_ps.get(Connection { net, sink }) {
            Some(minimum) => *minimum,
            None => 0,
        },
        None => 0,
    }
}

/// Delay of a PIP of the tree: the least where a minimum is asked for.
pub open spec fn tree_pip_delay(costs: &RoutingCosts, pip: PipId, minimum_arrival_ps: u64) -> u32 {
    if minimum_arrival_ps == 0 {
        costs.pip_delays_ps@[pip.0 as int]
    } else {
        costs.pip_min_delays_ps@[pip.0 as int]
    }
}

/// Delay that a routed tree pays for one PIP: hold-repaired sinks count the minimum corner.
pub fn routed_tree_pip_delay(costs: &RoutingCosts, pip: PipId, minimum_arrival_ps: u64) -> (result:
    u32)
    requires
        pip.0 < costs.pip_delays_ps@.len(),
        pip.0 < costs.pip_min_delays_ps@.len(),
    ensures
        result == tree_pip_delay(costs, pip, minimum_arrival_ps),
{
    if minimum_arrival_ps == 0 {
        costs.pip_delays_ps[pip.0]
    } else {
        costs.pip_min_delays_ps[pip.0]
    }
}

} // verus!
