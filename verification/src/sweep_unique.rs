//! An iteration has one course.

use std::sync::Arc;

use vstd::prelude::*;

use crate::cohort_unique::{same_slot, same_slots};
use crate::course::{
    is_noted, is_objective, recurs_at, sweep_events, NegotiationPoint,
};
use crate::cycles::{
    lemma_members, members, released_since, states_differ, CongestionObjective,
    RoutingConflictCycleDetector, RoutingConflictState, RoutingOrderEntry,
};
use crate::error::PnrError;
use crate::model::Connection;
use crate::negotiate::RoutingProgress;
use crate::negotiation::Negotiation;
use crate::ordered::{increasing, lemma_increasing_is_canonical, OrderedKey};
use crate::owners::{arc_has, ResourceClass};
use crate::route::NetRoute;
use crate::search::RouteSearch;
use crate::search_unique::lemma_same_members;
use crate::stage_unique::{
    lemma_repairs_unique, lemma_resolved_unique, lemma_rips_up_unique, lemma_same_counted,
    lemma_same_slots_back, same_owners, same_stage,
};
use crate::stages::{repairs, rips_up, Stage};
use crate::trial::Trial;
use crate::turn_unique::{
    all_usable, are_kin, lemma_halts_unique, lemma_takes_turn_unique, lemma_turns_or_halts,
    same_history, same_reason,
};
use crate::victims::{arc_owns, claimed, uses, ConnectionOwner};
use crate::workspace::RoutingWorkspace;

verus! {

/// Both detectors saw the same states, no two of which are alike.
pub open spec fn same_states(
    a: RoutingConflictCycleDetector,
    b: RoutingConflictCycleDetector,
) -> bool {
    &&& a.best_objective == b.best_objective
    &&& a.states@.len() == b.states@.len()
    &&& forall|i: int| 0 <= i < a.states@.len() ==> (#[trigger] a.states@[i]).same(&b.states@[i])
    &&& states_differ(a.states@)
    &&& states_differ(b.states@)
}

/// Both negotiations stand at the same point.
pub open spec fn same_point(p: NegotiationPoint, q: NegotiationPoint) -> bool {
    &&& same_stage(p.stage(), q.stage())
    &&& same_history(p, q)
    &&& p.dirty == q.dirty
    &&& p.priority == q.priority
    &&& p.log == q.log
    &&& same_states(p.detector, q.detector)
}

/// What stands at the same point does so the other way round.
pub proof fn lemma_same_point_back(p: NegotiationPoint, q: NegotiationPoint)
    requires
        same_point(p, q),
    ensures
        same_point(q, p),
{
    lemma_same_slots_back(p.routes, q.routes);
    assert forall|i: int| 0 <= i < q.detector.states@.len() implies (
        #[trigger] q.detector.states@[i]).same(&p.detector.states@[i]) by {
        assert(p.detector.states@[i].same(&q.detector.states@[i]));
    }
}

/// The dirty nets have one order.
proof fn lemma_order_unique(
    a: Trial<'_>,
    b: Trial<'_>,
    p: NegotiationPoint,
    q: NegotiationPoint,
    order: Seq<RoutingOrderEntry>,
    also: Seq<RoutingOrderEntry>,
)
    requires
        are_kin(a, b),
        p.dirty == q.dirty,
        p.priority == q.priority,
        a.is_order(p, order),
        b.is_order(q, also),
    ensures
        order == also,
        forall|i: int| 0 <= i < order.len() ==> (#[trigger] order[i]).index < a.net_count(),
{
    let x = choose|sorted: Seq<RoutingOrderEntry>| #[trigger]
        a.lists_dirty(p.dirty, sorted) && order == if p.priority == Set::<usize>::empty() {
            sorted
        } else {
            members(sorted, p.priority, true).reverse() + members(sorted, p.priority, false)
        };
    let y = choose|sorted: Seq<RoutingOrderEntry>| #[trigger]
        b.lists_dirty(q.dirty, sorted) && also == if q.priority == Set::<usize>::empty() {
            sorted
        } else {
            members(sorted, q.priority, true).reverse() + members(sorted, q.priority, false)
        };
    lemma_listed_once(a, p.dirty, x);
    lemma_listed_once(b, q.dirty, y);
    assert forall|e: RoutingOrderEntry| x.to_set().contains(e) == y.to_set().contains(e) by {
        assert(x.contains(e) == y.contains(e));
    }
    assert(x.to_set() =~= y.to_set());
    lemma_increasing_is_canonical(x, y);
    assert forall|i: int| 0 <= i < order.len() implies (#[trigger] order[i]).index
        < a.net_count() by {
        let e = order[i];
        assert(x.contains(e)) by {
            if p.priority != Set::<usize>::empty() {
                lemma_members(x, p.priority, true, e);
                lemma_members(x, p.priority, false, e);
                let first = members(x, p.priority, true);
                let rest = members(x, p.priority, false);
                if i < first.len() {
                    assert(first[first.len() - 1 - i] == e);
                } else {
                    assert(rest[i - first.len()] == e);
                }
            }
        }
    }
}

/// The sorted entries rise.
proof fn lemma_listed_once(trial: Trial<'_>, dirty: Set<Connection>, sorted: Seq<RoutingOrderEntry>)
    requires
        trial.lists_dirty(dirty, sorted),
    ensures
        increasing(sorted),
{
    assert forall|i: int, j: int| 0 <= i < j < sorted.len() implies (#[trigger] sorted[i]).rank()
        < (#[trigger] sorted[j]).rank() by {
        if sorted[i].rank() == sorted[j].rank() {
            RoutingOrderEntry::rank_is_injective(sorted[i], sorted[j]);
        }
    }
}

/// An iteration begins in one way.
proof fn lemma_begins_unique(
    a: Trial<'_>,
    b: Trial<'_>,
    p: NegotiationPoint,
    q: NegotiationPoint,
    x: Stage,
    y: Stage,
)
    requires
        are_kin(a, b),
        same_point(p, q),
        a.begins(p, x),
        b.begins(q, y),
    ensures
        same_stage(x, y),
        x.wires.wf() && x.pips.wf(),
        y.wires.wf() && y.pips.wf(),
{
    let u = choose|released: Stage|
        #[trigger] rips_up(a.graph.device, p.dirty, p.stage(), released) && repairs(released, x);
    let v = choose|released: Stage|
        #[trigger] rips_up(b.graph.device, q.dirty, q.stage(), released) && repairs(released, y);
    lemma_rips_up_unique(a.graph.device, p.dirty, (p.stage(), q.stage()), (u, v));
    lemma_repairs_unique((u, v), (x, y));
}

/// The first nets of an iteration are routed in one way.
proof fn lemma_chain_unique(
    a: Trial<'_>,
    b: Trial<'_>,
    x: RouteSearch,
    y: RouteSearch,
    iteration: int,
    p: NegotiationPoint,
    q: NegotiationPoint,
    order: Seq<RoutingOrderEntry>,
    u: Seq<Stage>,
    v: Seq<Stage>,
    count: int,
)
    requires
        are_kin(a, b),
        all_usable(a.graph.device),
        x.same_estimates(&y),
        same_point(p, q),
        p.routes.len() == a.net_count(),
        forall|i: int| 0 <= i < order.len() ==> (#[trigger] order[i]).index < a.net_count(),
        a.is_sweep(x, iteration, p, order, u),
        b.is_sweep(y, iteration, q, order, v),
        0 <= count < u.len(),
        count < v.len(),
    ensures
        same_stage(u[count], v[count]),
        u[count].routes.len() == a.net_count(),
        u[count].wires.wf() && u[count].pips.wf(),
        v[count].wires.wf() && v[count].pips.wf(),
    decreases count,
{
    if count == 0 {
        lemma_begins_unique(a, b, p, q, u[0], v[0]);
    } else {
        lemma_chain_unique(a, b, x, y, iteration, p, q, order, u, v, count - 1);
        assert(a.is_turn_at(x, iteration, p, order, u, count - 1));
        assert(b.is_turn_at(y, iteration, q, order, v, count - 1));
        lemma_takes_turn_unique(
            a,
            b,
            x,
            y,
            iteration,
            p,
            q,
            order[count - 1].index,
            (u[count - 1], v[count - 1]),
            (u[count], v[count]),
        );
    }
}

/// An iteration routes its nets in one way.
pub proof fn lemma_sweeps_unique(
    a: Trial<'_>,
    b: Trial<'_>,
    x: RouteSearch,
    y: RouteSearch,
    iteration: int,
    p: NegotiationPoint,
    q: NegotiationPoint,
    last: (Stage, Stage),
    events: (Seq<RoutingProgress>, Seq<RoutingProgress>),
)
    requires
        are_kin(a, b),
        all_usable(a.graph.device),
        x.same_estimates(&y),
        same_point(p, q),
        p.routes.len() == a.net_count(),
        a.sweeps(x, iteration, p, last.0, events.0),
        b.sweeps(y, iteration, q, last.1, events.1),
    ensures
        same_stage(last.0, last.1),
        events.0 == events.1,
        last.0.routes.len() == a.net_count(),
        last.0.wires.wf() && last.0.pips.wf(),
        last.1.wires.wf() && last.1.pips.wf(),
{
    let (order, u) = choose|order: Seq<RoutingOrderEntry>, chain: Seq<Stage>|
        {
            &&& #[trigger] a.is_sweep(x, iteration, p, order, chain)
            &&& chain.len() == order.len() + 1
            &&& chain.last() == last.0
            &&& events.0 == sweep_events(iteration, p, order, order.len() as int)
        };
    let (also, v) = choose|order: Seq<RoutingOrderEntry>, chain: Seq<Stage>|
        {
            &&& #[trigger] b.is_sweep(y, iteration, q, order, chain)
            &&& chain.len() == order.len() + 1
            &&& chain.last() == last.1
            &&& events.1 == sweep_events(iteration, q, order, order.len() as int)
        };
    lemma_order_unique(a, b, p, q, order, also);
    lemma_chain_unique(a, b, x, y, iteration, p, q, order, u, v, u.len() - 1);
}

/// An iteration that routes every net does not stop.
pub proof fn lemma_sweeps_or_stops(
    a: Trial<'_>,
    b: Trial<'_>,
    x: RouteSearch,
    y: RouteSearch,
    iteration: int,
    p: NegotiationPoint,
    q: NegotiationPoint,
    last: Stage,
    events: Seq<RoutingProgress>,
    error: PnrError,
    told: Seq<RoutingProgress>,
)
    requires
        are_kin(a, b),
        all_usable(a.graph.device),
        x.same_estimates(&y),
        same_point(p, q),
        p.routes.len() == a.net_count(),
        a.sweeps(x, iteration, p, last, events),
    ensures
        !b.stops(y, iteration, q, error, told),
{
    if b.stops(y, iteration, q, error, told) {
        let (order, u) = choose|order: Seq<RoutingOrderEntry>, chain: Seq<Stage>|
            {
                &&& #[trigger] a.is_sweep(x, iteration, p, order, chain)
                &&& chain.len() == order.len() + 1
                &&& chain.last() == last
                &&& events == sweep_events(iteration, p, order, order.len() as int)
            };
        let (also, v) = choose|order: Seq<RoutingOrderEntry>, chain: Seq<Stage>|
            {
                &&& #[trigger] b.is_sweep(y, iteration, q, order, chain)
                &&& chain.len() <= order.len()
                &&& told == sweep_events(iteration, q, order, chain.len() as int)
                &&& b.halts(
                    y,
                    iteration,
                    q,
                    chain.last().routes,
                    order[chain.len() - 1].index,
                    error,
                )
            };
        lemma_order_unique(a, b, p, q, order, also);
        let at = v.len() - 1;
        lemma_chain_unique(a, b, x, y, iteration, p, q, order, u, v, at);
        assert(a.is_turn_at(x, iteration, p, order, u, at));
        lemma_turns_or_halts(
            a,
            b,
            x,
            y,
            iteration,
            p,
            q,
            u[at],
            u[at + 1],
            v[at].routes,
            order[at].index,
            error,
        );
    }
}

/// An iteration that stops does so in one way.
pub proof fn lemma_stops_unique(
    a: Trial<'_>,
    b: Trial<'_>,
    x: RouteSearch,
    y: RouteSearch,
    iteration: int,
    p: NegotiationPoint,
    q: NegotiationPoint,
    error: (PnrError, PnrError),
    events: (Seq<RoutingProgress>, Seq<RoutingProgress>),
)
    requires
        are_kin(a, b),
        all_usable(a.graph.device),
        x.same_estimates(&y),
        same_point(p, q),
        p.routes.len() == a.net_count(),
        a.stops(x, iteration, p, error.0, events.0),
        b.stops(y, iteration, q, error.1, events.1),
    ensures
        same_reason(error.0, error.1),
        events.0 == events.1,
{
    let (order, u) = choose|order: Seq<RoutingOrderEntry>, chain: Seq<Stage>|
        {
            &&& #[trigger] a.is_sweep(x, iteration, p, order, chain)
            &&& chain.len() <= order.len()
            &&& events.0 == sweep_events(iteration, p, order, chain.len() as int)
            &&& a.halts(
                x,
                iteration,
                p,
                chain.last().routes,
                order[chain.len() - 1].index,
                error.0,
            )
        };
    let (also, v) = choose|order: Seq<RoutingOrderEntry>, chain: Seq<Stage>|
        {
            &&& #[trigger] b.is_sweep(y, iteration, q, order, chain)
            &&& chain.len() <= order.len()
            &&& events.1 == sweep_events(iteration, q, order, chain.len() as int)
            &&& b.halts(
                y,
                iteration,
                q,
                chain.last().routes,
                order[chain.len() - 1].index,
                error.1,
            )
        };
    lemma_order_unique(a, b, p, q, order, also);
    let at = if u.len() < v.len() {
        u.len() - 1
    } else {
        v.len() - 1
    };
    let net = order[at].index;
    lemma_chain_unique(a, b, x, y, iteration, p, q, order, u, v, at);
    if u.len() < v.len() {
        assert(b.is_turn_at(y, iteration, q, order, v, at));
        lemma_same_slots_back(u[at].routes, v[at].routes);
        lemma_turns_or_halts(
            b,
            a,
            y,
            x,
            iteration,
            q,
            p,
            v[at],
            v[at + 1],
            u[at].routes,
            net,
            error.0,
        );
    } else if v.len() < u.len() {
        assert(a.is_turn_at(x, iteration, p, order, u, at));
        lemma_turns_or_halts(
            a,
            b,
            x,
            y,
            iteration,
            p,
            q,
            u[at],
            u[at + 1],
            v[at].routes,
            net,
            error.1,
        );
    } else {
        lemma_halts_unique(
            a,
            b,
            x,
            y,
            iteration,
            p,
            q,
            u[at].routes,
            v[at].routes,
            net,
            error.0,
            error.1,
        );
    }
}

/// The same slots hold the same claimed connections.
proof fn lemma_same_claimed(
    a: Seq<Option<Arc<NetRoute>>>,
    b: Seq<Option<Arc<NetRoute>>>,
    class: ResourceClass,
    owner: ConnectionOwner,
)
    requires
        same_slots(a, b),
        claimed(a, class, owner),
    ensures
        claimed(b, class, owner),
{
    let n = owner.net.0 as int;
    assert(same_slot(a[n], b[n]));
    let x = a[n]->0;
    let y = b[n]->0;
    let k = choose|k: int|
        0 <= k < x.arcs@.len() && (#[trigger] x.arcs@[k]).sink == owner.sink && arc_has(
            x.arcs@[k],
            class,
            owner.resource,
        );
    assert(x.arcs@[k].same(&y.arcs@[k]));
    assert(y.arcs@[k].sink == owner.sink && arc_has(y.arcs@[k], class, owner.resource));
}

/// The same slots use the same resources for the same connections.
proof fn lemma_same_uses(
    a: Seq<Option<Arc<NetRoute>>>,
    b: Seq<Option<Arc<NetRoute>>>,
    class: ResourceClass,
    owner: ConnectionOwner,
)
    requires
        same_slots(a, b),
        uses(a, class, owner),
    ensures
        uses(b, class, owner),
{
    let (i, k) = choose|i: int, k: int|
        0 <= i < a.len() && #[trigger] arc_owns(a, class, owner, i, k);
    assert(same_slot(a[i], b[i]));
    let x = a[i]->0;
    let y = b[i]->0;
    assert(x.arcs@[k].same(&y.arcs@[k]));
    assert(arc_owns(b, class, owner, i, k));
}

/// What a negotiation looks at to choose connections is the same.
spec fn same_view(
    s: Negotiation,
    room: RoutingWorkspace,
    t: Negotiation,
    other: RoutingWorkspace,
) -> bool {
    &&& same_slots(s.routes@, t.routes@)
    &&& same_slots(t.routes@, s.routes@)
    &&& crate::stage_unique::same_counts(room.wires, other.wires)
    &&& crate::stage_unique::same_counts(room.pips, other.pips)
    &&& s.overused_wires@ == t.overused_wires@
    &&& s.overused_pips@ == t.overused_pips@
    &&& room.wire_owners.conflicts@ == other.wire_owners.conflicts@
    &&& room.pip_owners.conflicts@ == other.pip_owners.conflicts@
}

/// The same connections are contested.
proof fn lemma_same_records(
    s: Negotiation,
    room: RoutingWorkspace,
    t: Negotiation,
    other: RoutingWorkspace,
    class: ResourceClass,
)
    requires
        same_view(s, room, t, other),
    ensures
        s.records(room, class) == t.records(other, class),
{
    assert(s.all_overuse_is_single(room) == t.all_overuse_is_single(other));
    assert forall|c: ConnectionOwner|
        claimed(s.routes@, class, c) == #[trigger] claimed(t.routes@, class, c) by {
        if claimed(s.routes@, class, c) {
            lemma_same_claimed(s.routes@, t.routes@, class, c);
        }
        if claimed(t.routes@, class, c) {
            lemma_same_claimed(t.routes@, s.routes@, class, c);
        }
    }
    assert forall|c: ConnectionOwner|
        uses(s.routes@, class, c) == #[trigger] uses(t.routes@, class, c) by {
        if uses(s.routes@, class, c) {
            lemma_same_uses(s.routes@, t.routes@, class, c);
        }
        if uses(t.routes@, class, c) {
            lemma_same_uses(t.routes@, s.routes@, class, c);
        }
    }
    assert forall|c: ConnectionOwner| #[trigger]
        s.records(room, class).contains(c) == t.records(other, class).contains(c) by {}
    assert(s.records(room, class) =~= t.records(other, class));
}

/// Both negotiations look at the same conflicts.
proof fn lemma_balanced_alike(
    a: Trial<'_>,
    b: Trial<'_>,
    s: Negotiation,
    room: RoutingWorkspace,
    t: Negotiation,
    other: RoutingWorkspace,
)
    requires
        are_kin(a, b),
        same_slots(s.routes@, t.routes@),
        s.balanced(room, a),
        t.balanced(other, b),
        same_owners(room.wire_owners, other.wire_owners),
        same_owners(room.pip_owners, other.pip_owners),
    ensures
        same_view(s, room, t, other),
        s.overused_wires.ordered() == t.overused_wires.ordered(),
        s.overused_pips.ordered() == t.overused_pips.ordered(),
{
    lemma_same_slots_back(s.routes@, t.routes@);
    lemma_same_counted(a.graph.device, s.routes@, t.routes@, room, other);
    assert forall|r: usize|
        s.overused_wires@.contains(r) == t.overused_wires@.contains(r) by {}
    assert(s.overused_wires@ =~= t.overused_wires@);
    assert forall|r: usize| s.overused_pips@.contains(r) == t.overused_pips@.contains(r) by {}
    assert(s.overused_pips@ =~= t.overused_pips@);
    lemma_same_members(&s.overused_wires, &t.overused_wires);
    lemma_same_members(&s.overused_pips, &t.overused_pips);
}

/// The states from the same place on release the same connections.
proof fn lemma_same_released(
    a: Seq<RoutingConflictState>,
    b: Seq<RoutingConflictState>,
    from: int,
)
    requires
        a.len() == b.len(),
        0 <= from,
        forall|i: int| 0 <= i < a.len() ==> (#[trigger] a[i]).same(&b[i]),
    ensures
        released_since(a, from) == released_since(b, from),
{
    assert forall|c: Connection|
        released_since(a, from).contains(c) == released_since(b, from).contains(c) by {
        if released_since(a, from).contains(c) {
            let i = choose|i: int|
                from <= i < a.len() && (#[trigger] a[i]).dirty@.contains(c);
            assert(a[i].same(&b[i]));
            assert(b[i].dirty@.contains(c));
        }
        if released_since(b, from).contains(c) {
            let i = choose|i: int|
                from <= i < b.len() && (#[trigger] b[i]).dirty@.contains(c);
            assert(a[i].same(&b[i]));
            assert(a[i].dirty@.contains(c));
        }
    }
    assert(released_since(a, from) =~= released_since(b, from));
}

/// An iteration is noted in one way.
proof fn lemma_noted_unique(
    before: (RoutingConflictCycleDetector, RoutingConflictCycleDetector),
    objective: CongestionObjective,
    wires: Set<usize>,
    pips: Set<usize>,
    victims: Set<Connection>,
    after: (RoutingConflictCycleDetector, RoutingConflictCycleDetector),
    dirty: (Set<Connection>, Set<Connection>),
    priority: (Set<usize>, Set<usize>),
)
    requires
        same_states(before.0, before.1),
        is_noted(before.0, objective, wires, pips, victims, after.0, dirty.0, priority.0),
        is_noted(before.1, objective, wires, pips, victims, after.1, dirty.1, priority.1),
    ensures
        same_states(after.0, after.1),
        dirty.0 == dirty.1,
        priority.0 == priority.1,
{
    let s = before.0.epoch(objective);
    let t = before.1.epoch(objective);
    assert(s.len() == t.len());
    assert forall|i: int| 0 <= i < s.len() implies (#[trigger] s[i]).same(&t[i]) by {
        assert(before.0.states@[i].same(&before.1.states@[i]));
    }
    assert(states_differ(s) && states_differ(t));
    assert forall|at: int|
        recurs_at(s, wires, pips, victims, at) == recurs_at(t, wires, pips, victims, at) by {
        if 0 <= at < s.len() {
            assert(s[at].same(&t[at]));
        }
    }
    if exists|at: int| recurs_at(s, wires, pips, victims, at) {
        let i = choose|at: int|
            {
                &&& #[trigger] recurs_at(s, wires, pips, victims, at)
                &&& dirty.0 == victims.union(released_since(s, at))
                &&& priority.0 == crate::conflicts::dirty_net_set(released_since(s, at))
                &&& after.0.states@.len() == 0
            };
        assert(recurs_at(t, wires, pips, victims, i));
        let j = choose|at: int|
            {
                &&& #[trigger] recurs_at(t, wires, pips, victims, at)
                &&& dirty.1 == victims.union(released_since(t, at))
                &&& priority.1 == crate::conflicts::dirty_net_set(released_since(t, at))
                &&& after.1.states@.len() == 0
            };
        assert(t[i].same(&t[j]));
        assert(t[j].same(&t[i]));
        assert(i == j);
        lemma_same_released(s, t, i);
    } else {
        assert forall|at: int| !recurs_at(t, wires, pips, victims, at) by {
            assert(!recurs_at(s, wires, pips, victims, at));
        }
        lemma_noted_states(s, wires, pips, victims, after.0.states@);
        lemma_noted_states(t, wires, pips, victims, after.1.states@);
        assert forall|i: int| 0 <= i < after.0.states@.len() implies (
            #[trigger] after.0.states@[i]).same(&after.1.states@[i]) by {
            if i < s.len() {
                assert(after.0.states@.drop_last()[i] == s[i]);
                assert(after.1.states@.drop_last()[i] == t[i]);
                assert(s[i].same(&t[i]));
            }
        }
    }
}

/// A state that does not recur differs from those before it.
proof fn lemma_noted_states(
    states: Seq<RoutingConflictState>,
    wires: Set<usize>,
    pips: Set<usize>,
    victims: Set<Connection>,
    after: Seq<RoutingConflictState>,
)
    requires
        states_differ(states),
        forall|at: int| !recurs_at(states, wires, pips, victims, at),
        after.len() == states.len() + 1,
        after.drop_last() == states,
        recurs_at(after, wires, pips, victims, states.len() as int),
    ensures
        states_differ(after),
{
    assert forall|i: int, j: int| 0 <= i < j < after.len() implies !#[trigger] after[i].same(
        &after[j],
    ) by {
        assert(after.drop_last()[i] == states[i]);
        if j < states.len() {
            assert(after.drop_last()[j] == states[j]);
            assert(!states[i].same(&states[j]));
        } else {
            assert(!recurs_at(states, wires, pips, victims, i));
        }
    }
}

/// What follows an iteration is one.
pub proof fn lemma_sequel_unique(
    a: Trial<'_>,
    b: Trial<'_>,
    before: (RoutingConflictCycleDetector, RoutingConflictCycleDetector),
    last: (Stage, Stage),
    after: (NegotiationPoint, NegotiationPoint),
)
    requires
        are_kin(a, b),
        same_states(before.0, before.1),
        same_stage(last.0, last.1),
        last.0.wires.wf() && last.0.pips.wf(),
        last.1.wires.wf() && last.1.pips.wf(),
        a.is_sequel(before.0, last.0, after.0),
        b.is_sequel(before.1, last.1, after.1),
    ensures
        same_stage(after.0.stage(), after.1.stage()),
        same_states(after.0.detector, after.1.detector),
        after.0.dirty == after.1.dirty,
        after.0.priority == after.1.priority,
        after.0.routes == last.0.routes,
        after.1.routes == last.1.routes,
{
    let (s, room, x, chosen) = choose|
        state: Negotiation,
        room: RoutingWorkspace,
        objective: CongestionObjective,
        victims: Set<Connection>,
    |
        {
            &&& #[trigger] state.balanced(room, a)
            &&& state.routes@ == after.0.routes
            &&& state.routes@ == last.0.routes
            &&& room.wire_owners == last.0.wires
            &&& room.pip_owners == last.0.pips
            &&& #[trigger] is_objective(state, room, objective)
            &&& forall|c: Connection|
                victims.contains(c) <==> #[trigger] a.is_chosen(state, room, c)
            &&& #[trigger] is_noted(
                before.0,
                objective,
                state.overused_wires@,
                state.overused_pips@,
                victims,
                after.0.detector,
                after.0.dirty,
                after.0.priority,
            )
        };
    let (t, other, y, also) = choose|
        state: Negotiation,
        room: RoutingWorkspace,
        objective: CongestionObjective,
        victims: Set<Connection>,
    |
        {
            &&& #[trigger] state.balanced(room, b)
            &&& state.routes@ == after.1.routes
            &&& state.routes@ == last.1.routes
            &&& room.wire_owners == last.1.wires
            &&& room.pip_owners == last.1.pips
            &&& #[trigger] is_objective(state, room, objective)
            &&& forall|c: Connection|
                victims.contains(c) <==> #[trigger] b.is_chosen(state, room, c)
            &&& #[trigger] is_noted(
                before.1,
                objective,
                state.overused_wires@,
                state.overused_pips@,
                victims,
                after.1.detector,
                after.1.dirty,
                after.1.priority,
            )
        };
    lemma_balanced_alike(a, b, s, room, t, other);
    lemma_same_records(s, room, t, other, ResourceClass::Wire);
    lemma_same_records(s, room, t, other, ResourceClass::Pip);
    assert(x == y);
    assert forall|c: Connection| chosen.contains(c) == also.contains(c) by {
        assert(a.is_chosen(s, room, c) == b.is_chosen(t, other, c));
    }
    assert(chosen =~= also);
    lemma_noted_unique(
        before,
        x,
        s.overused_wires@,
        s.overused_pips@,
        chosen,
        (after.0.detector, after.1.detector),
        (after.0.dirty, after.1.dirty),
        (after.0.priority, after.1.priority),
    );
    lemma_resolved_unique(
        (last.0.wires, last.1.wires),
        after.0.routes,
        after.1.routes,
        after.0.dirty,
        ResourceClass::Wire,
        (after.0.wire_owners, after.1.wire_owners),
    );
    lemma_resolved_unique(
        (last.0.pips, last.1.pips),
        after.0.routes,
        after.1.routes,
        after.0.dirty,
        ResourceClass::Pip,
        (after.0.pip_owners, after.1.pip_owners),
    );
}

} // verus!
