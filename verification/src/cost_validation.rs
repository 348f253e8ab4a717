//! Checks on characterized routing costs.

use vstd::prelude::*;
use vstd::string::*;

use crate::cost::{ROUTING_CRITICALITY_SCALE, ROUTING_DELAY_QUANTUM_PS};
use crate::device::UnifiedGraph;
use crate::error::PnrError;
use crate::model::{Connection, NetId};
use crate::net_growth::costs_fit;
use crate::routing_costs::RoutingCosts;
use crate::text::{append_decimal, numbered, twice_numbered};
use crate::validation::has_sink;

verus! {

/// The connection is one of the design.
pub open spec fn connection_exists(graph: UnifiedGraph<'_>, connection: Connection) -> bool {
    &&& connection.net.0 < graph.design.nets@.len()
    &&& graph.design.nets@[connection.net.0 as int].sinks@.contains(connection.sink)
}

/// Every net criticality names a net and lies in range.
pub open spec fn net_criticalities_valid(graph: UnifiedGraph<'_>, costs: &RoutingCosts) -> bool {
    forall|n: NetId| #[trigger]
        costs.net_criticalities@.contains_key(n) ==> n.0 < graph.design.nets@.len() && 1
            <= costs.net_criticalities@[n] <= ROUTING_CRITICALITY_SCALE
}

/// Every arc criticality names a connection and lies in range.
pub open spec fn sink_criticalities_valid(graph: UnifiedGraph<'_>, costs: &RoutingCosts) -> bool {
    forall|c: Connection| #[trigger]
        costs.sink_criticalities@.contains_key(c) ==> connection_exists(graph, c) && 1
            <= costs.sink_criticalities@[c] <= ROUTING_CRITICALITY_SCALE
}

/// Every minimum delay names a connection and is positive.
pub open spec fn sink_minima_valid(graph: UnifiedGraph<'_>, costs: &RoutingCosts) -> bool {
    forall|c: Connection| #[trigger]
        costs.sink_min_delays_ps@.contains_key(c) ==> connection_exists(graph, c)
            && costs.sink_min_delays_ps@[c] != 0
}

/// The costs match the design and the device.
pub open spec fn costs_valid(graph: UnifiedGraph<'_>, costs: &RoutingCosts) -> bool {
    &&& costs.pip_delays_ps@.len() == graph.device.pips@.len()
    &&& costs.pip_min_delays_ps@.len() == graph.device.pips@.len()
    &&& net_criticalities_valid(graph, costs)
    &&& sink_criticalities_valid(graph, costs)
    &&& forall|n: NetId| #[trigger]
        costs.detailed_timing_nets@.contains(n) ==> n.0 < graph.design.nets@.len()
    &&& 0 < costs.detailed_delay_quantum_ps <= ROUTING_DELAY_QUANTUM_PS
    &&& sink_minima_valid(graph, costs)
}

/// Valid costs are costs that the router can work with.
pub proof fn lemma_valid_costs_fit(graph: UnifiedGraph<'_>, costs: &RoutingCosts)
    requires
        costs.wf(),
        costs_valid(graph, costs),
    ensures
        costs_fit(graph.device, costs),
{
}

/// Refusal of the costs.
fn refuse(reason: String) -> (result: Result<(), PnrError>)
    ensures
        result == Err::<(), _>(PnrError::InvalidRoutingCosts { reason }),
{
    Err(PnrError::InvalidRoutingCosts { reason })
}

/// Checks the net criticalities.
fn check_net_criticalities(graph: &UnifiedGraph<'_>, costs: &RoutingCosts) -> (result: Result<
    (),
    PnrError,
>)
    requires
        costs.wf(),
    ensures
        result is Ok <==> net_criticalities_valid(*graph, costs),
        result matches Err(error) ==> error is InvalidRoutingCosts,
{
    let table = &costs.net_criticalities;
    let mut index: usize = 0;
    while index < table.len()
        invariant
            index <= table.ordered().len(),
            table.wf(),
            *table == costs.net_criticalities,
            forall|i: int|
                0 <= i < index ==> (#[trigger] table.ordered()[i]).0 < graph.design.nets@.len()
                    && 1 <= table@[table.ordered()[i]] <= ROUTING_CRITICALITY_SCALE,
        decreases table.ordered().len() - index,
    {
        let net = table.key_at(index);
        let criticality: u64 = *table.value_at(index);
        proof {
            table.entry(index as int);
            assert(costs.net_criticalities@.contains_key(net));
        }
        if net.0 >= graph.design.nets.len() {
            return refuse(numbered("criticality names unknown net ", net.0, ""));
        }
        if criticality < 1 || criticality > ROUTING_CRITICALITY_SCALE {
            return refuse(
                twice_numbered(
                    "net ",
                    net.0 as u64,
                    " criticality ",
                    criticality,
                    " is outside 1..=64",
                ),
            );
        }
        index = index + 1;
    }
    proof {
        assert forall|n: NetId| #[trigger] costs.net_criticalities@.contains_key(n) implies n.0
            < graph.design.nets@.len() && 1 <= costs.net_criticalities@[n]
            <= ROUTING_CRITICALITY_SCALE by {
            let i = table.key_index(n);
            assert(table.ordered()[i] == n);
        }
    }
    Ok(())
}

/// Checks the arc criticalities.
fn check_sink_criticalities(graph: &UnifiedGraph<'_>, costs: &RoutingCosts) -> (result: Result<
    (),
    PnrError,
>)
    requires
        costs.wf(),
    ensures
        result is Ok <==> sink_criticalities_valid(*graph, costs),
        result matches Err(error) ==> error is InvalidRoutingCosts,
{
    let table = &costs.sink_criticalities;
    let mut index: usize = 0;
    while index < table.len()
        invariant
            index <= table.ordered().len(),
            table.wf(),
            *table == costs.sink_criticalities,
            forall|i: int|
                0 <= i < index ==> connection_exists(*graph, #[trigger] table.ordered()[i]) && 1
                    <= table@[table.ordered()[i]] <= ROUTING_CRITICALITY_SCALE,
        decreases table.ordered().len() - index,
    {
        let connection = table.key_at(index);
        let criticality: u64 = *table.value_at(index);
        proof {
            table.entry(index as int);
            assert(costs.sink_criticalities@.contains_key(connection));
        }
        if connection.net.0 >= graph.design.nets.len() {
            return refuse(numbered("arc criticality names unknown net ", connection.net.0, ""));
        }
        if !has_sink(&graph.design.nets[connection.net.0].sinks, connection.sink) {
            return refuse(
                twice_numbered(
                    "pin ",
                    connection.sink.0 as u64,
                    " is not a sink of net ",
                    connection.net.0 as u64,
                    "",
                ),
            );
        }
        if criticality < 1 || criticality > ROUTING_CRITICALITY_SCALE {
            let mut reason = twice_numbered(
                "net ",
                connection.net.0 as u64,
                " sink ",
                connection.sink.0 as u64,
                " criticality ",
            );
            append_decimal(&mut reason, criticality);
            reason.append(" is outside 1..=64");
            return refuse(reason);
        }
        index = index + 1;
    }
    proof {
        assert forall|c: Connection| #[trigger] costs.sink_criticalities@.contains_key(
            c,
        ) implies connection_exists(*graph, c) && 1 <= costs.sink_criticalities@[c]
            <= ROUTING_CRITICALITY_SCALE by {
            let i = table.key_index(c);
            assert(table.ordered()[i] == c);
        }
    }
    Ok(())
}

/// Checks the minimum delays.
fn check_sink_minima(graph: &UnifiedGraph<'_>, costs: &RoutingCosts) -> (result: Result<
    (),
    PnrError,
>)
    requires
        costs.wf(),
    ensures
        result is Ok <==> sink_minima_valid(*graph, costs),
        result matches Err(error) ==> error is InvalidRoutingCosts,
{
    let table = &costs.sink_min_delays_ps;
    let mut index: usize = 0;
    while index < table.len()
        invariant
            index <= table.ordered().len(),
            table.wf(),
            *table == costs.sink_min_delays_ps,
            forall|i: int|
                0 <= i < index ==> connection_exists(*graph, #[trigger] table.ordered()[i])
                    && table@[table.ordered()[i]] != 0,
        decreases table.ordered().len() - index,
    {
        let connection = table.key_at(index);
        let minimum: u64 = *table.value_at(index);
        proof {
            table.entry(index as int);
            assert(costs.sink_min_delays_ps@.contains_key(connection));
        }
        if connection.net.0 >= graph.design.nets.len() {
            return refuse(numbered("minimum delay names unknown net ", connection.net.0, ""));
        }
        if !has_sink(&graph.design.nets[connection.net.0].sinks, connection.sink) {
            return refuse(
                twice_numbered(
                    "pin ",
                    connection.sink.0 as u64,
                    " is not a sink of net ",
                    connection.net.0 as u64,
                    "",
                ),
            );
        }
        if minimum == 0 {
            return refuse(
                twice_numbered(
                    "net ",
                    connection.net.0 as u64,
                    " sink ",
                    connection.sink.0 as u64,
                    " has a zero minimum delay",
                ),
            );
        }
        index = index + 1;
    }
    proof {
        assert forall|c: Connection| #[trigger] costs.sink_min_delays_ps@.contains_key(
            c,
        ) implies connection_exists(*graph, c) && costs.sink_min_delays_ps@[c] != 0 by {
            let i = table.key_index(c);
            assert(table.ordered()[i] == c);
        }
    }
    Ok(())
}

/// Checks that the costs match the design and the device.
pub fn validate_routing_costs(graph: &UnifiedGraph<'_>, costs: Option<&RoutingCosts>) -> (result:
    Result<(), PnrError>)
    requires
        costs matches Some(costs) ==> costs.wf(),
    ensures
        result is Ok <==> (costs matches Some(costs) ==> costs_valid(*graph, costs)),
        result matches Err(error) ==> error is InvalidRoutingCosts,
{
    let known = match costs {
        None => {
            return Ok(());
        },
        Some(known) => known,
    };
    let pips: usize = graph.device.pips.len();
    if known.pip_delays_ps.len() != pips {
        return refuse(
            twice_numbered(
                "expected ",
                pips as u64,
                " PIP delays, received ",
                known.pip_delays_ps.len() as u64,
                "",
            ),
        );
    }
    if known.pip_min_delays_ps.len() != pips {
        return refuse(
            twice_numbered(
                "expected ",
                pips as u64,
                " minimum PIP delays, received ",
                known.pip_min_delays_ps.len() as u64,
                "",
            ),
        );
    }
    match check_net_criticalities(graph, known) {
        Err(error) => {
            return Err(error);
        },
        Ok(()) => {},
    }
    match check_sink_criticalities(graph, known) {
        Err(error) => {
            return Err(error);
        },
        Ok(()) => {},
    }
    let nets = &known.detailed_timing_nets;
    let mut index: usize = 0;
    while index < nets.len()
        invariant
            index <= nets.ordered().len(),
            nets.wf(),
            costs == Some(known),
            *nets == known.detailed_timing_nets,
            forall|i: int|
                0 <= i < index ==> (#[trigger] nets.ordered()[i]).0 < graph.design.nets@.len(),
        decreases nets.ordered().len() - index,
    {
        let net = nets.at(index);
        if net.0 >= graph.design.nets.len() {
            assert(known.detailed_timing_nets@.contains(net));
            return refuse(numbered("detailed timing names unknown net ", net.0, ""));
        }
        index = index + 1;
    }
    proof {
        assert forall|n: NetId| #[trigger] known.detailed_timing_nets@.contains(n) implies n.0
            < graph.design.nets@.len() by {
            nets.membership(n);
            let i = nets.ordered().index_of(n);
            assert(nets.ordered()[i] == n);
        }
    }
    if known.detailed_delay_quantum_ps == 0 || known.detailed_delay_quantum_ps
        > ROUTING_DELAY_QUANTUM_PS {
        return refuse(
            twice_numbered(
                "detailed delay quantum ",
                known.detailed_delay_quantum_ps,
                " ps is outside 1..=",
                ROUTING_DELAY_QUANTUM_PS,
                "",
            ),
        );
    }
    check_sink_minima(graph, known)
}

} // verus!
