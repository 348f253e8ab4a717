//! Order of negotiation and escape from its cycles.

use vstd::prelude::*;

use crate::model::{CellPinId, Connection, Design, NetId};
use crate::ordered::{lemma_digits, nondecreasing, sort_keys, OrderedKey, OrderedSet};
use crate::routing_constraints::RoutingConstraints;
use crate::routing_costs::{net_criticality, routing_criticality, RoutingCosts};

verus! {

/// Place of a net in a routing iteration: locked trees first, then
/// criticality, hold constraints, fanout, and stable ID.
#[derive(Clone, Copy, Debug, PartialEq, Eq, Structural)]
pub struct RoutingOrderEntry {
    /// Whether the net has no immutable route.
    pub unconstrained: bool,
    /// Criticality of the net.
    pub criticality: u64,
    /// Whether a sink of the net has a minimum delay.
    pub hold_constrained: bool,
    /// Number of sinks.
    pub fanout: usize,
    /// Index of the net.
    pub index: usize,
}

impl OrderedKey for RoutingOrderEntry {
    open spec fn rank(self) -> int {
        (((crate::occupancy::as_count(self.unconstrained) * 0x1_0000_0000_0000_0000 + (u64::MAX
            - self.criticality)) * 2 + crate::occupancy::as_count(!self.hold_constrained))
            * 0x1_0000_0000_0000_0000 + (u64::MAX - self.fanout)) * 0x1_0000_0000_0000_0000
            + self.index
    }

    proof fn rank_is_injective(a: Self, b: Self) {
        let x = (crate::occupancy::as_count(a.unconstrained) * 0x1_0000_0000_0000_0000 + (u64::MAX
            - a.criticality)) * 2 + crate::occupancy::as_count(!a.hold_constrained);
        let y = (crate::occupancy::as_count(b.unconstrained) * 0x1_0000_0000_0000_0000 + (u64::MAX
            - b.criticality)) * 2 + crate::occupancy::as_count(!b.hold_constrained);
        lemma_digits(
            x * 0x1_0000_0000_0000_0000 + (u64::MAX - a.fanout),
            a.index as int,
            y * 0x1_0000_0000_0000_0000 + (u64::MAX - b.fanout),
            b.index as int,
            0x1_0000_0000_0000_0000,
        );
        lemma_digits(x, u64::MAX - a.fanout, y, u64::MAX - b.fanout, 0x1_0000_0000_0000_0000);
    }

    fn precedes(self, other: Self) -> (result: bool) {
        if self.unconstrained != other.unconstrained {
            other.unconstrained
        } else if self.criticality != other.criticality {
            self.criticality > other.criticality
        } else if self.hold_constrained != other.hold_constrained {
            self.hold_constrained
        } else if self.fanout != other.fanout {
            self.fanout > other.fanout
        } else {
            self.index < other.index
        }
    }
}

/// Some sink of the net has a minimum delay.
pub open spec fn is_hold_constrained(costs: Option<&RoutingCosts>, net: NetId) -> bool {
    costs matches Some(costs) && exists|sink: CellPinId| #[trigger]
        costs.sink_min_delays_ps@.contains_key(Connection { net, sink })
}

/// Place of one net.
pub open spec fn order_entry(
    design: &Design,
    constraints: &RoutingConstraints,
    costs: Option<&RoutingCosts>,
    index: int,
) -> RoutingOrderEntry {
    RoutingOrderEntry {
        unconstrained: !constraints.routes@.contains_key(NetId(index as usize)),
        criticality: net_criticality(costs, NetId(index as usize)),
        hold_constrained: is_hold_constrained(costs, NetId(index as usize)),
        fanout: design.nets@[index].sinks@.len() as usize,
        index: index as usize,
    }
}

/// Nets with a minimum delay on some sink.
fn hold_constrained_nets(costs: Option<&RoutingCosts>) -> (result: OrderedSet<NetId>)
    requires
        costs matches Some(costs) ==> costs.wf(),
    ensures
        result.wf(),
        forall|n: NetId| #[trigger] result@.contains(n) <==> is_hold_constrained(costs, n),
{
    let mut result: OrderedSet<NetId> = OrderedSet::new();
    let known = match costs {
        None => {
            return result;
        },
        Some(known) => known,
    };
    let table = &known.sink_min_delays_ps;
    let mut index: usize = 0;
    while index < table.len()
        invariant
            index <= table.ordered().len(),
            table.wf(),
            *table == known.sink_min_delays_ps,
            result.wf(),
            forall|n: NetId| #[trigger]
                result@.contains(n) <==> exists|i: int|
                    0 <= i < index && (#[trigger] table.ordered()[i]).net == n,
        decreases table.ordered().len() - index,
    {
        let net = table.key_at(index).net;
        let ghost before = result@;
        result.insert(net);
        proof {
            assert forall|n: NetId| #[trigger] result@.contains(n) <==> exists|i: int|
                0 <= i < index + 1 && (#[trigger] table.ordered()[i]).net == n by {
                if before.contains(n) {
                    let i = choose|i: int|
                        0 <= i < index && (#[trigger] table.ordered()[i]).net == n;
                    assert(table.ordered()[i].net == n);
                }
                if n == net {
                    assert(table.ordered()[index as int].net == n);
                }
                if exists|i: int|
                    0 <= i < index + 1 && (#[trigger] table.ordered()[i]).net == n {
                    let i = choose|i: int|
                        0 <= i < index + 1 && (#[trigger] table.ordered()[i]).net == n;
                    if i < index {
                        assert(table.ordered()[i].net == n);
                    }
                }
            }
        }
        index = index + 1;
    }
    proof {
        assert forall|n: NetId| #[trigger] result@.contains(n) <==> is_hold_constrained(costs, n) by {
            if result@.contains(n) {
                let i = choose|i: int|
                    0 <= i < index && (#[trigger] table.ordered()[i]).net == n;
                table.entry(i);
                let key = table.ordered()[i];
                assert(key == (Connection { net: n, sink: key.sink }));
                assert(known.sink_min_delays_ps@.contains_key(
                    Connection { net: n, sink: key.sink },
                ));
            }
            if is_hold_constrained(costs, n) {
                let sink = choose|sink: CellPinId| #[trigger]
                    known.sink_min_delays_ps@.contains_key(Connection { net: n, sink });
                let i = table.key_index(Connection { net: n, sink });
                assert(table.ordered()[i].net == n);
            }
        }
    }
    result
}

/// Place of every net, by index.
pub fn routing_order(
    design: &Design,
    constraints: &RoutingConstraints,
    costs: Option<&RoutingCosts>,
) -> (result: Vec<RoutingOrderEntry>)
    requires
        constraints.wf(),
        costs matches Some(costs) ==> costs.wf(),
    ensures
        result@.len() == design.nets@.len(),
        forall|i: int|
            0 <= i < result@.len() ==> #[trigger] result@[i] == order_entry(
                design,
                constraints,
                costs,
                i,
            ),
{
    let held = hold_constrained_nets(costs);
    let mut result: Vec<RoutingOrderEntry> = Vec::new();
    let mut index: usize = 0;
    while index < design.nets.len()
        invariant
            index <= design.nets@.len(),
            constraints.wf(),
            costs matches Some(costs) ==> costs.wf(),
            held.wf(),
            forall|n: NetId| #[trigger] held@.contains(n) <==> is_hold_constrained(costs, n),
            result@.len() == index,
            forall|i: int|
                0 <= i < index ==> #[trigger] result@[i] == order_entry(
                    design,
                    constraints,
                    costs,
                    i,
                ),
        decreases design.nets@.len() - index,
    {
        let net = NetId(index);
        result.push(
            RoutingOrderEntry {
                unconstrained: !constraints.routes.contains_key(net),
                criticality: routing_criticality(costs, net),
                hold_constrained: held.contains(net),
                fanout: design.nets[index].sinks.len(),
                index,
            },
        );
        index = index + 1;
    }
    result
}

/// Entries whose net is in the component, or those whose net is not.
pub open spec fn members(
    order: Seq<RoutingOrderEntry>,
    component: Set<usize>,
    inside: bool,
) -> Seq<RoutingOrderEntry>
    decreases order.len(),
{
    if order.len() == 0 {
        Seq::empty()
    } else if component.contains(order.last().index) == inside {
        members(order.drop_last(), component, inside).push(order.last())
    } else {
        members(order.drop_last(), component, inside)
    }
}

/// The component's entries are those of its nets.
pub(crate) proof fn lemma_members(
    order: Seq<RoutingOrderEntry>,
    component: Set<usize>,
    inside: bool,
    entry: RoutingOrderEntry,
)
    ensures
        members(order, component, inside).contains(entry) <==> order.contains(entry)
            && component.contains(entry.index) == inside,
    decreases order.len(),
{
    if order.len() > 0 {
        let rest = order.drop_last();
        lemma_members(rest, component, inside, entry);
        let part = members(rest, component, inside);
        if rest.contains(entry) {
            let i = rest.index_of(entry);
            assert(order[i] == entry);
        }
        if order.contains(entry) && entry != order.last() {
            let i = order.index_of(entry);
            assert(rest[i] == entry);
        }
        assert(order[order.len() - 1] == order.last());
        if component.contains(order.last().index) == inside {
            let longer = part.push(order.last());
            if part.contains(entry) {
                let i = part.index_of(entry);
                assert(longer[i] == entry);
            }
            assert(longer[part.len() as int] == order.last());
            if longer.contains(entry) && entry != order.last() {
                let i = longer.index_of(entry);
                assert(part[i] == entry);
            }
        }
    }
}

/// Routes the nets of a cycle first, in the order opposite to the usual one.
pub fn prioritize_cycle_connections(
    order: &mut Vec<RoutingOrderEntry>,
    component: &OrderedSet<usize>,
)
    requires
        component.wf(),
    ensures
        exists|sorted: Seq<RoutingOrderEntry>|
            {
                &&& #[trigger] nondecreasing(sorted)
                &&& sorted.to_multiset() == old(order)@.to_multiset()
                &&& final(order)@ == members(sorted, component@, true).reverse() + members(
                    sorted,
                    component@,
                    false,
                )
            },
        forall|entry: RoutingOrderEntry| #[trigger]
            final(order)@.contains(entry) <==> old(order)@.contains(entry),
{
    let ghost given = order@;
    sort_keys(order);
    let ghost sorted = order@;
    let mut first: Vec<RoutingOrderEntry> = Vec::new();
    let mut rest: Vec<RoutingOrderEntry> = Vec::new();
    let mut index: usize = 0;
    while index < order.len()
        invariant
            index <= order@.len(),
            order@ == sorted,
            component.wf(),
            first@ == members(sorted.take(index as int), component@, true),
            rest@ == members(sorted.take(index as int), component@, false),
        decreases order@.len() - index,
    {
        let entry = order[index];
        proof {
            assert(sorted.take(index + 1).drop_last() =~= sorted.take(index as int));
            assert(sorted.take(index + 1).last() == entry);
        }
        if component.contains(entry.index) {
            first.push(entry);
        } else {
            rest.push(entry);
        }
        index = index + 1;
    }
    assert(sorted.take(index as int) =~= sorted);
    let mut result = crate::tree::reversed(&first);
    result.append(&mut rest);
    *order = result;
    proof {
        assert(order@ =~= members(sorted, component@, true).reverse() + members(
            sorted,
            component@,
            false,
        ));
        given.to_multiset_ensures();
        sorted.to_multiset_ensures();
        let a = members(sorted, component@, true);
        let b = members(sorted, component@, false);
        assert forall|entry: RoutingOrderEntry| #[trigger] order@.contains(entry)
            <==> given.contains(entry) by {
            assert(sorted.contains(entry) <==> sorted.to_multiset().count(entry) > 0);
            assert(given.contains(entry) <==> given.to_multiset().count(entry) > 0);
            lemma_members(sorted, component@, true, entry);
            lemma_members(sorted, component@, false, entry);
            if a.contains(entry) {
                let i = a.index_of(entry);
                assert(order@[a.len() - 1 - i] == entry);
            }
            if b.contains(entry) {
                let i = b.index_of(entry);
                assert(order@[a.len() + i] == entry);
            }
            if order@.contains(entry) {
                let i = order@.index_of(entry);
                if i < a.len() {
                    assert(a[a.len() - 1 - i] == entry);
                } else {
                    assert(b[i - a.len()] == entry);
                }
            }
        }
    }
}

/// Excess users and overused resources of one iteration.
#[derive(Clone, Copy, Debug, PartialEq, Eq, Structural)]
pub struct CongestionObjective {
    /// Users above capacity.
    pub excess: u64,
    /// Resources above capacity.
    pub resources: usize,
}

impl CongestionObjective {
    /// Fewer users above capacity, or as many on fewer resources.
    pub open spec fn better_than(self, other: Self) -> bool {
        self.excess < other.excess || (self.excess == other.excess && self.resources
            < other.resources)
    }
}

/// A component of connections whose conflicts recur.
#[derive(Clone, Debug, PartialEq, Eq)]
pub struct RoutingCycleEscape {
    /// Number of iterations of the cycle.
    pub length: usize,
    /// Every movable connection released in it.
    pub connections: OrderedSet<Connection>,
}

/// Conflicts and released connections after one iteration.
#[derive(Clone, Debug, PartialEq, Eq)]
pub struct RoutingConflictState {
    /// Overused wires.
    pub wires: OrderedSet<usize>,
    /// Overused PIPs.
    pub pips: OrderedSet<usize>,
    /// Connections to be released.
    pub dirty: OrderedSet<Connection>,
}

impl RoutingConflictState {
    /// The sets are ordered.
    pub open spec fn wf(&self) -> bool {
        self.wires.wf() && self.pips.wf() && self.dirty.wf()
    }

    /// The states have the same conflicts and the same released connections.
    pub open spec fn same(&self, other: &RoutingConflictState) -> bool {
        &&& self.wires@ == other.wires@
        &&& self.pips@ == other.pips@
        &&& self.dirty@ == other.dirty@
    }

    /// Whether the states have the same conflicts and the same released connections.
    pub fn equals(&self, other: &RoutingConflictState) -> (result: bool)
        requires
            self.wf(),
            other.wf(),
        ensures
            result == self.same(other),
    {
        self.wires.same(&other.wires) && self.pips.same(&other.pips) && self.dirty.same(
            &other.dirty,
        )
    }
}

/// Connections released in the states from a position on.
pub open spec fn released_since(states: Seq<RoutingConflictState>, from: int) -> Set<Connection> {
    Set::new(
        |c: Connection|
            exists|i: int|
                from <= i < states.len() && (#[trigger] states[i]).dirty@.contains(c),
    )
}

/// Detects deterministic negotiation cycles without an arbitrary stall count.
///
/// A strict reduction in total excess, then conflicting-resource count, starts
/// a new epoch. Re-entering an exact conflict state within an epoch proves a
/// cycle even when the victims rotate between iterations.
#[derive(Clone, Debug)]
pub struct RoutingConflictCycleDetector {
    /// Best objective so far.
    pub best_objective: Option<CongestionObjective>,
    /// States of the current epoch, in order.
    pub states: Vec<RoutingConflictState>,
}

/// Every state is ordered.
pub open spec fn states_wf(states: Seq<RoutingConflictState>) -> bool {
    forall|i: int| 0 <= i < states.len() ==> (#[trigger] states[i]).wf()
}

/// No state recurs.
pub open spec fn states_differ(states: Seq<RoutingConflictState>) -> bool {
    forall|i: int, j: int|
        0 <= i < j < states.len() ==> !#[trigger] states[i].same(&states[j])
}

impl RoutingConflictCycleDetector {
    /// Every state is ordered and none recurs.
    pub open spec fn wf(&self) -> bool {
        states_wf(self.states@) && states_differ(self.states@)
    }

    /// Nothing has been observed.
    pub fn new() -> (result: Self)
        ensures
            result.wf(),
            result.best_objective is None,
            result.states@.len() == 0,
    {
        RoutingConflictCycleDetector { best_objective: None, states: Vec::new() }
    }

    /// The objective opens a new epoch.
    pub open spec fn opens_epoch(&self, objective: CongestionObjective) -> bool {
        self.best_objective matches Some(best) ==> objective.better_than(best)
    }

    /// States of the epoch that an observation falls into.
    pub open spec fn epoch(&self, objective: CongestionObjective) -> Seq<RoutingConflictState> {
        if self.opens_epoch(objective) {
            Seq::empty()
        } else {
            self.states@
        }
    }

    /// Takes note of one iteration; reports the cycle that it closes.
    ///
    /// The reported component holds every connection released since the state
    /// occurred before, and the report starts a fresh epoch.
    pub fn observe(
        &mut self,
        objective: CongestionObjective,
        wires: &OrderedSet<usize>,
        pips: &OrderedSet<usize>,
        dirty: &OrderedSet<Connection>,
    ) -> (result: Option<RoutingCycleEscape>)
        requires
            old(self).wf(),
            wires.wf(),
            pips.wf(),
            dirty.wf(),
        ensures
            final(self).wf(),
            final(self).best_objective == if old(self).opens_epoch(objective) {
                Some(objective)
            } else {
                old(self).best_objective
            },
            match result {
                Some(cycle) => {
                    let states = old(self).epoch(objective);
                    &&& cycle.connections.wf()
                    &&& 0 < cycle.length <= states.len()
                    &&& states[states.len() - cycle.length].wires@ == wires@
                    &&& states[states.len() - cycle.length].pips@ == pips@
                    &&& states[states.len() - cycle.length].dirty@ == dirty@
                    &&& cycle.connections@ == released_since(states, states.len() - cycle.length)
                    &&& final(self).states@.len() == 0
                },
                None => {
                    let states = old(self).epoch(objective);
                    &&& forall|i: int|
                        0 <= i < states.len() ==> !((#[trigger] states[i]).wires@ == wires@
                            && states[i].pips@ == pips@ && states[i].dirty@ == dirty@)
                    &&& final(self).states@.len() == states.len() + 1
                    &&& final(self).states@.drop_last() == states
                    &&& final(self).states@.last().wires@ == wires@
                    &&& final(self).states@.last().pips@ == pips@
                    &&& final(self).states@.last().dirty@ == dirty@
                },
            },
    {
        let opens = match self.best_objective {
            None => true,
            Some(best) => objective.excess < best.excess || (objective.excess == best.excess
                && objective.resources < best.resources),
        };
        if opens {
            self.best_objective = Some(objective);
            self.states.clear();
        }
        let ghost states = old(self).epoch(objective);
        assert(self.states@ =~= states);
        let state = RoutingConflictState {
            wires: wires.copied(),
            pips: pips.copied(),
            dirty: dirty.copied(),
        };
        let mut index: usize = 0;
        while index < self.states.len()
            invariant
                index <= self.states@.len(),
                self.states@ == states,
                states_wf(states),
                state.wf(),
                forall|i: int| 0 <= i < index ==> !(#[trigger] states[i]).same(&state),
                opens == old(self).opens_epoch(objective),
                states == old(self).epoch(objective),
                state.wires@ == wires@,
                state.pips@ == pips@,
                state.dirty@ == dirty@,
                self.best_objective == if opens {
                    Some(objective)
                } else {
                    old(self).best_objective
                },
            decreases self.states@.len() - index,
        {
            assert(states[index as int].wf());
            if self.states[index].equals(&state) {
                let length: usize = self.states.len() - index;
                let mut connections: OrderedSet<Connection> = OrderedSet::new();
                let mut at: usize = index;
                while at < self.states.len()
                    invariant
                        index <= at <= self.states@.len(),
                        self.states@ == states,
                        states_wf(states),
                        connections.wf(),
                        forall|c: Connection| #[trigger]
                            connections@.contains(c) <==> exists|i: int|
                                index <= i < at && (#[trigger] states[i]).dirty@.contains(c),
                    decreases self.states@.len() - at,
                {
                    assert(states[at as int].wf());
                    let ghost before = connections@;
                    connections.extend(self.states[at].dirty.as_slice());
                    proof {
                        let list = states[at as int].dirty;
                        assert forall|c: Connection| #[trigger] connections@.contains(c)
                            <==> exists|i: int|
                            index <= i < at + 1 && (#[trigger] states[i]).dirty@.contains(c) by {
                            list.membership(c);
                            assert(before.contains(c) <==> exists|i: int|
                                index <= i < at && (#[trigger] states[i]).dirty@.contains(c));
                            if before.contains(c) {
                                let i = choose|i: int|
                                    index <= i < at && (#[trigger] states[i]).dirty@.contains(c);
                                assert(states[i].dirty@.contains(c));
                            }
                            if list@.contains(c) {
                                assert(states[at as int].dirty@.contains(c));
                            }
                            if exists|i: int|
                                index <= i < at + 1 && (#[trigger] states[i]).dirty@.contains(c) {
                                let i = choose|i: int|
                                    index <= i < at + 1 && (#[trigger] states[i]).dirty@.contains(
                                        c,
                                    );
                                if i < at {
                                    assert(states[i].dirty@.contains(c));
                                }
                            }
                        }
                    }
                    at = at + 1;
                }
                proof {
                    assert(connections@ =~= released_since(states, index as int));
                }
                self.states.clear();
                return Some(RoutingCycleEscape { length, connections });
            }
            index = index + 1;
        }
        self.states.push(state);
        proof {
            assert(self.states@.drop_last() =~= states);
            assert forall|i: int| 0 <= i < states.len() implies !((#[trigger] states[i]).wires@
                == wires@ && states[i].pips@ == pips@ && states[i].dirty@ == dirty@) by {
                assert(!states[i].same(&state));
            }
            assert(states_differ(self.states@)) by {
                assert forall|i: int, j: int| 0 <= i < j < self.states@.len() implies
                !#[trigger] self.states@[i].same(&self.states@[j]) by {
                    if j < states.len() {
                        assert(!states[i].same(&states[j]));
                    } else {
                        assert(!states[i].same(&state));
                    }
                }
            }
        }
        None
    }
}

} // verus!
