//! Routes and owners change in one way.

use std::sync::Arc;

use vstd::prelude::*;

use crate::cohort_unique::{lemma_same_sets, same_slot, same_slots};
use crate::course::slot_released;
use crate::device::Device;
use crate::growth_unique::same_arcs;
use crate::model::{Connection, NetId};
use crate::negotiate::{is_entered, is_entry_chain};
use crate::occupancy::{pip_sets, slot_pips, slot_wires, users, wire_sets, ResourceTable};
use crate::ordered::lemma_increasing_is_canonical;
use crate::owners::{
    arc_has, first_user, survives, survivor, OwnerIndex, ResourceClaim, ResourceClass,
};
use crate::ownership::{are_claimed, are_released, is_owned, meets};
use crate::release::{preserves, stayed_values};
use crate::route::{the_order_of_arcs_does_not_matter, NetRoute, RouteArc};
use crate::search_unique::lemma_same_members;
use crate::stages::{
    claims, is_counted, is_release_at, is_release_step, is_repaired, is_resolved, is_ripup,
    repairs, rips_up, Stage,
};
use crate::workspace::RoutingWorkspace;

verus! {

/// Both indices name the same owners, stale resources, and conflicts.
pub open spec fn same_owners(a: OwnerIndex, b: OwnerIndex) -> bool {
    &&& a.owners@ == b.owners@
    &&& a.stale@ == b.stale@
    &&& a.conflicts@ == b.conflicts@
}

/// Both stages hold the same routes and owners.
pub open spec fn same_stage(a: Stage, b: Stage) -> bool {
    &&& same_slots(a.routes, b.routes)
    &&& same_owners(a.wires, b.wires)
    &&& same_owners(a.pips, b.pips)
}

/// Both tables have the same users and capacities.
pub open spec fn same_counts(a: ResourceTable, b: ResourceTable) -> bool {
    a.occupancy@ == b.occupancy@ && a.capacities@ == b.capacities@
}

/// Workspaces that count the same slots hold the same counts.
pub proof fn lemma_same_counted(
    device: &Device,
    a: Seq<Option<Arc<NetRoute>>>,
    b: Seq<Option<Arc<NetRoute>>>,
    x: RoutingWorkspace,
    y: RoutingWorkspace,
)
    requires
        same_slots(a, b),
        is_counted(device, a, x),
        is_counted(device, b, y),
    ensures
        same_counts(x.wires, y.wires),
        same_counts(x.pips, y.pips),
        x.wire_points@ == y.wire_points@,
{
    lemma_same_sets(a, b);
    assert(x.wires.occupancy@ =~= y.wires.occupancy@) by {
        assert forall|r: int| 0 <= r < x.wires.occupancy@.len() implies x.wires.occupancy@[r]
            == y.wires.occupancy@[r] by {
            assert(x.wires.occupancy@[r] == users(wire_sets(a), r));
            assert(y.wires.occupancy@[r] == users(wire_sets(b), r));
        }
    }
    assert(x.pips.occupancy@ =~= y.pips.occupancy@) by {
        assert forall|r: int| 0 <= r < x.pips.occupancy@.len() implies x.pips.occupancy@[r]
            == y.pips.occupancy@[r] by {
            assert(x.pips.occupancy@[r] == users(pip_sets(a), r));
            assert(y.pips.occupancy@[r] == users(pip_sets(b), r));
        }
    }
    assert(x.wires.capacities@ =~= y.wires.capacities@);
    assert(x.pips.capacities@ =~= y.pips.capacities@);
    assert(x.wire_points@ =~= y.wire_points@);
}

/// Resources are given up in one way.
proof fn lemma_released_unique(
    before: (OwnerIndex, OwnerIndex),
    gone: Set<int>,
    net: NetId,
    tables: (ResourceTable, ResourceTable),
    after: (OwnerIndex, OwnerIndex),
)
    requires
        same_owners(before.0, before.1),
        same_counts(tables.0, tables.1),
        are_released(before.0, gone, net, tables.0, after.0),
        are_released(before.1, gone, net, tables.1, after.1),
    ensures
        same_owners(after.0, after.1),
{
    assert forall|r: usize|
        is_owned(before.0, tables.0, r, net) == is_owned(before.1, tables.1, r, net) by {}
    assert forall|r: usize| #[trigger]
        after.0.owners@.contains_key(r) <==> after.1.owners@.contains_key(r) by {}
    assert forall|r: usize| #[trigger] after.0.owners@.contains_key(r) implies after.0.owners@[r]
        == after.1.owners@[r] by {
        assert(after.1.owners@.contains_key(r));
    }
    assert(after.0.owners@ =~= after.1.owners@);
    assert forall|r: usize| after.0.stale@.contains(r) == after.1.stale@.contains(r) by {}
    assert(after.0.stale@ =~= after.1.stale@);
}

/// Resources are taken in one way.
pub proof fn lemma_claimed_unique(
    before: (OwnerIndex, OwnerIndex),
    taken: Set<int>,
    net: NetId,
    tables: (ResourceTable, ResourceTable),
    after: (OwnerIndex, OwnerIndex),
)
    requires
        same_owners(before.0, before.1),
        same_counts(tables.0, tables.1),
        are_claimed(before.0, taken, net, tables.0, after.0),
        are_claimed(before.1, taken, net, tables.1, after.1),
    ensures
        same_owners(after.0, after.1),
{
    assert forall|r: usize| #[trigger]
        after.0.owners@.contains_key(r) <==> after.1.owners@.contains_key(r) by {}
    assert forall|r: usize| #[trigger] after.0.owners@.contains_key(r) implies after.0.owners@[r]
        == after.1.owners@[r] by {
        assert(after.1.owners@.contains_key(r));
    }
    assert(after.0.owners@ =~= after.1.owners@);
    assert forall|c: ResourceClaim|
        after.0.conflicts@.contains(c) == after.1.conflicts@.contains(c) by {
        assert(meets(before.0, tables.0, net, c) == meets(before.1, tables.1, net, c));
    }
    assert(after.0.conflicts@ =~= after.1.conflicts@);
}

/// The same slots have the same first user.
proof fn lemma_same_first_user(
    a: Seq<Option<Arc<NetRoute>>>,
    b: Seq<Option<Arc<NetRoute>>>,
    class: ResourceClass,
    resource: usize,
    from: int,
)
    requires
        same_slots(a, b),
        0 <= from,
    ensures
        first_user(a, class, resource, from) == first_user(b, class, resource, from),
    decreases a.len() - from,
{
    if from < a.len() {
        assert(same_slot(a[from], b[from]));
        lemma_same_first_user(a, b, class, resource, from + 1);
    }
}

/// Owners are repaired in one way.
proof fn lemma_repaired_unique(
    before: (OwnerIndex, OwnerIndex),
    a: Seq<Option<Arc<NetRoute>>>,
    b: Seq<Option<Arc<NetRoute>>>,
    class: ResourceClass,
    after: (OwnerIndex, OwnerIndex),
)
    requires
        same_owners(before.0, before.1),
        same_slots(a, b),
        is_repaired(before.0, a, class, after.0),
        is_repaired(before.1, b, class, after.1),
    ensures
        same_owners(after.0, after.1),
{
    assert forall|r: usize|
        first_user(a, class, r, 0) == #[trigger] first_user(b, class, r, 0) by {
        lemma_same_first_user(a, b, class, r, 0);
    }
    assert forall|r: usize| #[trigger]
        after.0.owners@.contains_key(r) <==> after.1.owners@.contains_key(r) by {}
    assert forall|r: usize| #[trigger] after.0.owners@.contains_key(r) implies after.0.owners@[r]
        == after.1.owners@[r] by {
        assert(after.1.owners@.contains_key(r));
    }
    assert(after.0.owners@ =~= after.1.owners@);
}

/// The same slots let the same contenders survive.
proof fn lemma_same_survives(
    a: Seq<Option<Arc<NetRoute>>>,
    b: Seq<Option<Arc<NetRoute>>>,
    dirty: Set<Connection>,
    class: ResourceClass,
    resource: usize,
    net: NetId,
)
    requires
        same_slots(a, b),
        survives(a, dirty, class, resource, net),
    ensures
        survives(b, dirty, class, resource, net),
{
    let n = net.0 as int;
    assert(same_slot(a[n], b[n]));
    let x = a[n]->0;
    let y = b[n]->0;
    let i = choose|i: int|
        0 <= i < x.arcs@.len() && arc_has(#[trigger] x.arcs@[i], class, resource) && (
        x.arcs@[i].sink matches Some(sink) ==> !dirty.contains(Connection { net, sink }));
    assert(x.arcs@[i].same(&y.arcs@[i]));
    assert(arc_has(y.arcs@[i], class, resource));
}

/// The same slots hold the same the other way round.
pub proof fn lemma_same_slots_back(
    a: Seq<Option<Arc<NetRoute>>>,
    b: Seq<Option<Arc<NetRoute>>>,
)
    requires
        same_slots(a, b),
    ensures
        same_slots(b, a),
{
    assert forall|i: int| 0 <= i < b.len() implies same_slot(#[trigger] b[i], a[i]) by {
        assert(same_slot(a[i], b[i]));
        if let (Some(x), Some(y)) = (a[i], b[i]) {
            assert forall|k: int| 0 <= k < y.arcs@.len() implies (#[trigger] y.arcs@[k]).same(
                &x.arcs@[k],
            ) by {
                assert(x.arcs@[k].same(&y.arcs@[k]));
            }
        }
    }
}

/// The same slots have the same survivor.
proof fn lemma_same_survivor(
    claims: Seq<ResourceClaim>,
    a: Seq<Option<Arc<NetRoute>>>,
    b: Seq<Option<Arc<NetRoute>>>,
    dirty: Set<Connection>,
    class: ResourceClass,
    resource: usize,
)
    requires
        same_slots(a, b),
        same_slots(b, a),
    ensures
        survivor(claims, a, dirty, class, resource) == survivor(
            claims,
            b,
            dirty,
            class,
            resource,
        ),
    decreases claims.len(),
{
    if claims.len() > 0 {
        let net = claims[0].net;
        if survives(a, dirty, class, resource, net) {
            lemma_same_survives(a, b, dirty, class, resource, net);
        }
        if survives(b, dirty, class, resource, net) {
            lemma_same_survives(b, a, dirty, class, resource, net);
        }
        lemma_same_survivor(claims.drop_first(), a, b, dirty, class, resource);
    }
}

/// Conflicts are resolved in one way.
pub proof fn lemma_resolved_unique(
    before: (OwnerIndex, OwnerIndex),
    a: Seq<Option<Arc<NetRoute>>>,
    b: Seq<Option<Arc<NetRoute>>>,
    dirty: Set<Connection>,
    class: ResourceClass,
    after: (OwnerIndex, OwnerIndex),
)
    requires
        before.0.wf(),
        before.1.wf(),
        same_owners(before.0, before.1),
        same_slots(a, b),
        is_resolved(before.0, a, dirty, class, after.0),
        is_resolved(before.1, b, dirty, class, after.1),
    ensures
        same_owners(after.0, after.1),
{
    lemma_same_members(&before.0.conflicts, &before.1.conflicts);
    lemma_same_slots_back(a, b);
    let claims = before.0.conflicts.ordered();
    assert forall|r: usize|
        survivor(claims, a, dirty, class, r) == #[trigger] survivor(claims, b, dirty, class, r) by {
        lemma_same_survivor(claims, a, b, dirty, class, r);
    }
    assert forall|r: usize| #[trigger]
        after.0.owners@.contains_key(r) <==> after.1.owners@.contains_key(r) by {}
    assert forall|r: usize| #[trigger] after.0.owners@.contains_key(r) implies after.0.owners@[r]
        == after.1.owners@[r] by {
        assert(after.1.owners@.contains_key(r));
    }
    assert(after.0.owners@ =~= after.1.owners@);
}

/// The same arcs stay.
proof fn lemma_same_stayed(
    a: Seq<RouteArc>,
    b: Seq<RouteArc>,
    dirty: Set<Connection>,
    net: NetId,
)
    requires
        same_arcs(a, b),
    ensures
        stayed_values(a, dirty, net) == stayed_values(b, dirty, net),
    decreases a.len(),
{
    if a.len() > 0 {
        assert(a[a.len() - 1].same(&b[b.len() - 1]));
        assert forall|i: int| 0 <= i < a.len() - 1 implies (#[trigger] a.drop_last()[i]).same(
            &b.drop_last()[i],
        ) by {
            assert(a[i].same(&b[i]));
        }
        lemma_same_stayed(a.drop_last(), b.drop_last(), dirty, net);
    }
}

/// The route behind the reference.
pub open spec fn shared_route(route: Arc<NetRoute>) -> NetRoute {
    *route
}

/// A slot is released in one way.
proof fn lemma_slot_released_unique(
    before: (Option<Arc<NetRoute>>, Option<Arc<NetRoute>>),
    dirty: Set<Connection>,
    after: (Option<Arc<NetRoute>>, Option<Arc<NetRoute>>),
)
    requires
        same_slot(before.0, before.1),
        slot_released(before.0, dirty, after.0),
        slot_released(before.1, dirty, after.1),
    ensures
        same_slot(after.0, after.1),
{
    if let (Some(p), Some(q)) = (before.0, before.1) {
        reveal(preserves);
        let x = after.0->0;
        let y = after.1->0;
        lemma_same_stayed(p.arcs@, q.arcs@, dirty, p.net);
        the_order_of_arcs_does_not_matter(shared_route(x), shared_route(y));
    }
}

/// Slots that differ in one place by the same route are the same.
pub proof fn lemma_same_update(
    before: (Seq<Option<Arc<NetRoute>>>, Seq<Option<Arc<NetRoute>>>),
    net: int,
    after: (Seq<Option<Arc<NetRoute>>>, Seq<Option<Arc<NetRoute>>>),
)
    requires
        same_slots(before.0, before.1),
        0 <= net < before.0.len(),
        after.0 == before.0.update(net, after.0[net]),
        after.1 == before.1.update(net, after.1[net]),
        same_slot(after.0[net], after.1[net]),
    ensures
        same_slots(after.0, after.1),
{
    assert forall|i: int| 0 <= i < after.0.len() implies same_slot(
        #[trigger] after.0[i],
        after.1[i],
    ) by {
        if i != net {
            assert(same_slot(before.0[i], before.1[i]));
        }
    }
}

/// A slot uses the same resources as the same slot.
proof fn lemma_same_slot_sets(a: Option<Arc<NetRoute>>, b: Option<Arc<NetRoute>>)
    requires
        same_slot(a, b),
    ensures
        slot_wires(a) == slot_wires(b),
        slot_pips(a) == slot_pips(b),
{
    assert(slot_wires(a) =~= slot_wires(b));
    assert(slot_pips(a) =~= slot_pips(b));
}

/// One net is released in one way.
proof fn lemma_release_step_unique(
    device: &Device,
    dirty: Set<Connection>,
    net: usize,
    before: (Stage, Stage),
    after: (Stage, Stage),
)
    requires
        same_stage(before.0, before.1),
        is_release_step(device, dirty, net, before.0, after.0),
        is_release_step(device, dirty, net, before.1, after.1),
    ensures
        same_stage(after.0, after.1),
{
    let n = net as int;
    let earlier = (before.0.routes[n], before.1.routes[n]);
    let later = (after.0.routes[n], after.1.routes[n]);
    assert(same_slot(earlier.0, earlier.1));
    lemma_slot_released_unique(earlier, dirty, later);
    lemma_same_update(
        (before.0.routes, before.1.routes),
        n,
        (after.0.routes, after.1.routes),
    );
    lemma_same_slot_sets(earlier.0, earlier.1);
    lemma_same_slot_sets(later.0, later.1);
    let wires = slot_wires(earlier.0).difference(slot_wires(later.0));
    let pips = slot_pips(earlier.0).difference(slot_pips(later.0));
    let x = choose|room: RoutingWorkspace|
        {
            &&& #[trigger] is_counted(device, after.0.routes, room)
            &&& are_released(before.0.wires, wires, NetId(net), room.wires, after.0.wires)
            &&& are_released(before.0.pips, pips, NetId(net), room.pips, after.0.pips)
        };
    let y = choose|room: RoutingWorkspace|
        {
            &&& #[trigger] is_counted(device, after.1.routes, room)
            &&& are_released(before.1.wires, wires, NetId(net), room.wires, after.1.wires)
            &&& are_released(before.1.pips, pips, NetId(net), room.pips, after.1.pips)
        };
    lemma_same_counted(device, after.0.routes, after.1.routes, x, y);
    lemma_released_unique(
        (before.0.wires, before.1.wires),
        wires,
        NetId(net),
        (x.wires, y.wires),
        (after.0.wires, after.1.wires),
    );
    lemma_released_unique(
        (before.0.pips, before.1.pips),
        pips,
        NetId(net),
        (x.pips, y.pips),
        (after.0.pips, after.1.pips),
    );
}

/// The first nets are released in one way.
proof fn lemma_ripup_unique(
    device: &Device,
    dirty: Set<Connection>,
    nets: Seq<usize>,
    x: Seq<Stage>,
    y: Seq<Stage>,
    count: int,
)
    requires
        is_ripup(device, dirty, nets, x),
        is_ripup(device, dirty, nets, y),
        same_stage(x[0], y[0]),
        0 <= count < x.len(),
        count < y.len(),
    ensures
        same_stage(x[count], y[count]),
        x[count].routes.len() == x[0].routes.len(),
    decreases count,
{
    if count > 0 {
        lemma_ripup_unique(device, dirty, nets, x, y, count - 1);
        assert(is_release_at(device, dirty, nets, x, count - 1));
        assert(is_release_at(device, dirty, nets, y, count - 1));
        lemma_release_step_unique(
            device,
            dirty,
            nets[count - 1],
            (x[count - 1], y[count - 1]),
            (x[count], y[count]),
        );
    }
}

/// The dirty nets are released in one way.
pub proof fn lemma_rips_up_unique(
    device: &Device,
    dirty: Set<Connection>,
    before: (Stage, Stage),
    after: (Stage, Stage),
)
    requires
        same_stage(before.0, before.1),
        rips_up(device, dirty, before.0, after.0),
        rips_up(device, dirty, before.1, after.1),
    ensures
        same_stage(after.0, after.1),
{
    let (nets, x) = choose|nets: Seq<usize>, stages: Seq<Stage>|
        {
            &&& #[trigger] is_ripup(device, dirty, nets, stages)
            &&& crate::ordered::increasing(nets)
            &&& nets.to_set() == crate::conflicts::dirty_net_set(dirty)
            &&& stages.len() == nets.len() + 1
            &&& stages[0] == before.0
            &&& stages.last() == after.0
        };
    let (also, y) = choose|nets: Seq<usize>, stages: Seq<Stage>|
        {
            &&& #[trigger] is_ripup(device, dirty, nets, stages)
            &&& crate::ordered::increasing(nets)
            &&& nets.to_set() == crate::conflicts::dirty_net_set(dirty)
            &&& stages.len() == nets.len() + 1
            &&& stages[0] == before.1
            &&& stages.last() == after.1
        };
    lemma_increasing_is_canonical(nets, also);
    lemma_ripup_unique(device, dirty, nets, x, y, x.len() - 1);
}

/// Owners of both classes are repaired in one way.
pub proof fn lemma_repairs_unique(before: (Stage, Stage), after: (Stage, Stage))
    requires
        same_stage(before.0, before.1),
        repairs(before.0, after.0),
        repairs(before.1, after.1),
    ensures
        same_stage(after.0, after.1),
{
    lemma_repaired_unique(
        (before.0.wires, before.1.wires),
        before.0.routes,
        before.1.routes,
        ResourceClass::Wire,
        (after.0.wires, after.1.wires),
    );
    lemma_repaired_unique(
        (before.0.pips, before.1.pips),
        before.0.routes,
        before.1.routes,
        ResourceClass::Pip,
        (after.0.pips, after.1.pips),
    );
}

/// A net takes its resources in one way.
pub proof fn lemma_claims_unique(
    device: &Device,
    net: usize,
    before: (Stage, Stage),
    after: (Stage, Stage),
)
    requires
        same_stage(before.0, before.1),
        net < before.0.routes.len(),
        same_slots(after.0.routes, after.1.routes),
        after.0.routes.len() == before.0.routes.len(),
        claims(device, net, before.0, after.0),
        claims(device, net, before.1, after.1),
    ensures
        same_stage(after.0, after.1),
{
    let n = net as int;
    let earlier = (before.0.routes[n], before.1.routes[n]);
    let later = (after.0.routes[n], after.1.routes[n]);
    assert(same_slot(earlier.0, earlier.1));
    assert(same_slot(later.0, later.1));
    lemma_same_slot_sets(earlier.0, earlier.1);
    lemma_same_slot_sets(later.0, later.1);
    let wires = slot_wires(later.0).difference(slot_wires(earlier.0));
    let pips = slot_pips(later.0).difference(slot_pips(earlier.0));
    let x = choose|room: RoutingWorkspace|
        {
            &&& #[trigger] is_counted(device, after.0.routes, room)
            &&& are_claimed(before.0.wires, wires, NetId(net), room.wires, after.0.wires)
            &&& are_claimed(before.0.pips, pips, NetId(net), room.pips, after.0.pips)
        };
    let y = choose|room: RoutingWorkspace|
        {
            &&& #[trigger] is_counted(device, after.1.routes, room)
            &&& are_claimed(before.1.wires, wires, NetId(net), room.wires, after.1.wires)
            &&& are_claimed(before.1.pips, pips, NetId(net), room.pips, after.1.pips)
        };
    lemma_same_counted(device, after.0.routes, after.1.routes, x, y);
    lemma_claimed_unique(
        (before.0.wires, before.1.wires),
        wires,
        NetId(net),
        (x.wires, y.wires),
        (after.0.wires, after.1.wires),
    );
    lemma_claimed_unique(
        (before.0.pips, before.1.pips),
        pips,
        NetId(net),
        (x.pips, y.pips),
        (after.0.pips, after.1.pips),
    );
}

/// The first nets take their resources in one way.
proof fn lemma_entry_unique(
    sets: Seq<Set<int>>,
    tables: (ResourceTable, ResourceTable),
    x: Seq<OwnerIndex>,
    y: Seq<OwnerIndex>,
    count: int,
)
    requires
        same_counts(tables.0, tables.1),
        is_entry_chain(sets, tables.0, x),
        is_entry_chain(sets, tables.1, y),
        0 <= count < x.len(),
        count < y.len(),
    ensures
        same_owners(x[count], y[count]),
    decreases count,
{
    if count > 0 {
        lemma_entry_unique(sets, tables, x, y, count - 1);
        assert(x[count - 1 + 1] == x[count] && y[count - 1 + 1] == y[count]);
        lemma_claimed_unique(
            (x[count - 1], y[count - 1]),
            sets[count - 1],
            NetId((count - 1) as usize),
            tables,
            (x[count], y[count]),
        );
    }
}

/// Nets take their resources in one way.
pub proof fn lemma_entered_unique(
    sets: Seq<Set<int>>,
    tables: (ResourceTable, ResourceTable),
    owners: (OwnerIndex, OwnerIndex),
)
    requires
        same_counts(tables.0, tables.1),
        is_entered(sets, tables.0, owners.0),
        is_entered(sets, tables.1, owners.1),
    ensures
        same_owners(owners.0, owners.1),
{
    let x = choose|chain: Seq<OwnerIndex>|
        #[trigger] is_entry_chain(sets, tables.0, chain) && chain.len() == sets.len() + 1
            && chain.last() == owners.0;
    let y = choose|chain: Seq<OwnerIndex>|
        #[trigger] is_entry_chain(sets, tables.1, chain) && chain.len() == sets.len() + 1
            && chain.last() == owners.1;
    lemma_entry_unique(sets, tables, x, y, x.len() - 1);
}

} // verus!
