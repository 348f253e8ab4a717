//! Incumbent-route occupancy by which placement moves are ranked.

use std::sync::Arc;

use vstd::prelude::*;

use crate::cost::{clip_u64, saturating_product};
use crate::model::{NetId, PipId, WireId};
use crate::ordered::{OrderedKey, OrderedMap};
use crate::route::{NetRoute, RouteArc};
use crate::routing_costs::{
    arc_criticality, net_criticality, routing_arc_criticality, routing_criticality, share,
    RoutingCosts,
};

verus! {

/// Sinks above which the victims of one resource are too many to move.
pub const MAX_PROJECTED_BLOCKER_SINKS: usize = 8;

/// Price of taking a resource from a net.
pub const RIPUP_BASE_PS: u64 = 150;

/// Further price of each point of the net's criticality.
pub const CRITICALITY_PENALTY_PS: u64 = 10;

/// Price of each arc that has to be released.
pub const ARC_RELEASE_PENALTY_PS: u64 = 25;

/// Price where too many arcs would have to be released.
pub const OVERSIZED_TRANSACTION_PENALTY_PS: u64 = 1_000_000;

/// A net that uses a resource.
#[derive(Clone, Copy, Debug, PartialEq, Eq, Structural)]
pub struct ProjectedOwner {
    /// Net.
    pub net: NetId,
    /// Greatest criticality of its arcs that use the resource.
    pub criticality: u64,
    /// Number of its arcs that use the resource, as far as it is counted.
    pub arcs: usize,
}

/// Owners after one more use by a net.
pub open spec fn with_use(
    owners: Seq<ProjectedOwner>,
    net: NetId,
    criticality: u64,
) -> Seq<ProjectedOwner>
    decreases owners.len(),
{
    if owners.len() == 0 {
        seq![ProjectedOwner { net, criticality, arcs: 1 }]
    } else if owners[0].net == net {
        seq![
            ProjectedOwner {
                net,
                criticality: if criticality > owners[0].criticality {
                    criticality
                } else {
                    owners[0].criticality
                },
                arcs: if owners[0].arcs < usize::MAX {
                    (owners[0].arcs + 1) as usize
                } else {
                    usize::MAX
                },
            },
        ] + owners.drop_first()
    } else {
        seq![owners[0]] + with_use(owners.drop_first(), net, criticality)
    }
}

/// Notes one more use by a net.
fn update_projected_owner(owners: &mut Vec<ProjectedOwner>, net: NetId, criticality: u64)
    ensures
        final(owners)@ == with_use(old(owners)@, net, criticality),
{
    let ghost before = owners@;
    let mut at: usize = 0;
    assert(before.take(0) + with_use(before.skip(0), net, criticality) =~= with_use(
        before,
        net,
        criticality,
    )) by {
        assert(before.skip(0) =~= before);
    }
    while at < owners.len()
        invariant
            at <= owners@.len(),
            owners@ == before,
            before == old(owners)@,
            with_use(before, net, criticality) == before.take(at as int) + with_use(
                before.skip(at as int),
                net,
                criticality,
            ),
        decreases owners@.len() - at,
    {
        let owner = owners[at];
        proof {
            assert(before.skip(at as int)[0] == owner);
            assert(before.skip(at as int).drop_first() =~= before.skip(at + 1));
        }
        if owner.net == net {
            let later = ProjectedOwner {
                net,
                criticality: if criticality > owner.criticality {
                    criticality
                } else {
                    owner.criticality
                },
                arcs: owner.arcs.saturating_add(1),
            };
            owners.set(at, later);
            proof {
                assert(owners@ =~= before.take(at as int) + (seq![later] + before.skip(at + 1)));
            }
            return ;
        }
        proof {
            assert(before.take(at as int) + (seq![owner] + with_use(
                before.skip(at + 1),
                net,
                criticality,
            )) =~= before.take(at + 1) + with_use(before.skip(at + 1), net, criticality));
        }
        at = at + 1;
    }
    owners.push(ProjectedOwner { net, criticality, arcs: 1 });
    proof {
        assert(before.skip(at as int).len() == 0);
        assert(owners@ =~= before.take(at as int) + with_use(
            before.skip(at as int),
            net,
            criticality,
        ));
    }
}

/// Owners of a resource in a table.
pub open spec fn owners_of<K>(table: Map<K, Vec<ProjectedOwner>>, key: K) -> Seq<ProjectedOwner> {
    if table.contains_key(key) {
        table[key]@
    } else {
        Seq::empty()
    }
}

/// Owners of a resource after the uses of the first keys.
pub open spec fn after_keys<K>(
    owners: Seq<ProjectedOwner>,
    keys: Seq<K>,
    key: K,
    net: NetId,
    criticality: u64,
) -> Seq<ProjectedOwner>
    decreases keys.len(),
{
    if keys.len() == 0 {
        owners
    } else {
        let rest = after_keys(owners, keys.drop_last(), key, net, criticality);
        if keys.last() == key {
            with_use(rest, net, criticality)
        } else {
            rest
        }
    }
}

/// Criticality of an arc: that of its sink, or of its net.
pub open spec fn projected_criticality(costs: &RoutingCosts, net: NetId, arc: RouteArc) -> u64 {
    match arc.sink {
        Some(sink) => arc_criticality(Some(costs), net, sink),
        None => net_criticality(Some(costs), net),
    }
}

/// Owners of a wire after the first arcs of a route.
pub open spec fn wire_after_arcs(
    owners: Seq<ProjectedOwner>,
    costs: &RoutingCosts,
    net: NetId,
    arcs: Seq<RouteArc>,
    wire: WireId,
) -> Seq<ProjectedOwner>
    decreases arcs.len(),
{
    if arcs.len() == 0 {
        owners
    } else {
        after_keys(
            wire_after_arcs(owners, costs, net, arcs.drop_last(), wire),
            arcs.last().wires@,
            wire,
            net,
            projected_criticality(costs, net, arcs.last()),
        )
    }
}

/// Owners of a PIP after the first arcs of a route.
pub open spec fn pip_after_arcs(
    owners: Seq<ProjectedOwner>,
    costs: &RoutingCosts,
    net: NetId,
    arcs: Seq<RouteArc>,
    pip: PipId,
) -> Seq<ProjectedOwner>
    decreases arcs.len(),
{
    if arcs.len() == 0 {
        owners
    } else {
        after_keys(
            pip_after_arcs(owners, costs, net, arcs.drop_last(), pip),
            arcs.last().pips@,
            pip,
            net,
            projected_criticality(costs, net, arcs.last()),
        )
    }
}

/// Owners of a wire by the first routes.
pub open spec fn wire_projection(
    costs: &RoutingCosts,
    routes: Seq<Arc<NetRoute>>,
    wire: WireId,
) -> Seq<ProjectedOwner>
    decreases routes.len(),
{
    if routes.len() == 0 {
        Seq::empty()
    } else {
        wire_after_arcs(
            wire_projection(costs, routes.drop_last(), wire),
            costs,
            routes.last().net,
            routes.last().arcs@,
            wire,
        )
    }
}

/// Owners of a PIP by the first routes.
pub open spec fn pip_projection(
    costs: &RoutingCosts,
    routes: Seq<Arc<NetRoute>>,
    pip: PipId,
) -> Seq<ProjectedOwner>
    decreases routes.len(),
{
    if routes.len() == 0 {
        Seq::empty()
    } else {
        pip_after_arcs(
            pip_projection(costs, routes.drop_last(), pip),
            costs,
            routes.last().net,
            routes.last().arcs@,
            pip,
        )
    }
}

/// Routes by net; a later route of a net replaces an earlier one.
pub open spec fn routes_by_net(routes: Seq<Arc<NetRoute>>) -> Map<NetId, Arc<NetRoute>>
    decreases routes.len(),
{
    if routes.len() == 0 {
        Map::empty()
    } else {
        routes_by_net(routes.drop_last()).insert(routes.last().net, routes.last())
    }
}

/// Sparse incumbent-route occupancy used to rank placement moves before a
/// negotiated-routing trial.
///
/// Every resource owner carries the greatest criticality of the owner's arcs
/// that use that resource.  A critical shared trunk is therefore protected,
/// while a resource used only by a noncritical branch remains a cheap victim.
#[derive(Clone, Debug, PartialEq, Eq)]
pub struct RouteCapacityProjection {
    /// Nets that use each wire.
    pub wire_owners: OrderedMap<WireId, Vec<ProjectedOwner>>,
    /// Nets that use each PIP.
    pub pip_owners: OrderedMap<PipId, Vec<ProjectedOwner>>,
    /// Route of each net.
    pub routes: OrderedMap<NetId, Arc<NetRoute>>,
}

/// Notes the uses of some keys by a net.
fn project_keys<K: OrderedKey>(
    table: &mut OrderedMap<K, Vec<ProjectedOwner>>,
    keys: &Vec<K>,
    net: NetId,
    criticality: u64,
)
    requires
        old(table).wf(),
    ensures
        final(table).wf(),
        forall|k: K| #[trigger]
            owners_of(final(table)@, k) == after_keys(
                owners_of(old(table)@, k),
                keys@,
                k,
                net,
                criticality,
            ),
{
    let ghost start = table@;
    let mut at: usize = 0;
    while at < keys.len()
        invariant
            at <= keys@.len(),
            table.wf(),
            forall|k: K| #[trigger]
                owners_of(table@, k) == after_keys(
                    owners_of(start, k),
                    keys@.take(at as int),
                    k,
                    net,
                    criticality,
                ),
        decreases keys@.len() - at,
    {
        let key = keys[at];
        let ghost before = table@;
        let mut owners = match table.remove(key) {
            Some(owners) => owners,
            None => Vec::new(),
        };
        assert(owners@ =~= owners_of(before, key));
        update_projected_owner(&mut owners, net, criticality);
        table.insert(key, owners);
        proof {
            assert(keys@.take(at + 1).drop_last() =~= keys@.take(at as int));
            assert(keys@.take(at + 1).last() == key);
            assert forall|k: K| #[trigger] owners_of(table@, k) == after_keys(
                owners_of(start, k),
                keys@.take(at + 1),
                k,
                net,
                criticality,
            ) by {
                assert(owners_of(before, k) == after_keys(
                    owners_of(start, k),
                    keys@.take(at as int),
                    k,
                    net,
                    criticality,
                ));
                if k != key {
                    assert(owners_of(table@, k) == owners_of(before, k));
                }
            }
        }
        at = at + 1;
    }
    assert(keys@.take(at as int) =~= keys@);
}

impl RouteCapacityProjection {
    /// The tables are ordered.
    pub open spec fn wf(&self) -> bool {
        self.wire_owners.wf() && self.pip_owners.wf() && self.routes.wf()
    }

    /// The projection is that of the routes.
    pub open spec fn projects(&self, costs: &RoutingCosts, routes: Seq<Arc<NetRoute>>) -> bool {
        &&& self.wf()
        &&& forall|w: WireId| #[trigger]
            owners_of(self.wire_owners@, w) == wire_projection(costs, routes, w)
        &&& forall|p: PipId| #[trigger]
            owners_of(self.pip_owners@, p) == pip_projection(costs, routes, p)
        &&& self.routes@ == routes_by_net(routes)
    }

    /// Projects routed arcs onto the resources they occupy.
    pub fn new(routes: &[Arc<NetRoute>], costs: &RoutingCosts) -> (result: Self)
        requires
            costs.wf(),
        ensures
            result.projects(costs, routes@),
    {
        let mut projection = RouteCapacityProjection {
            wire_owners: OrderedMap::new(),
            pip_owners: OrderedMap::new(),
            routes: OrderedMap::new(),
        };
        proof {
            assert(projection.routes@ =~= Map::<NetId, Arc<NetRoute>>::empty());
        }
        let mut index: usize = 0;
        while index < routes.len()
            invariant
                index <= routes@.len(),
                costs.wf(),
                projection.projects(costs, routes@.take(index as int)),
            decreases routes@.len() - index,
        {
            let route = &routes[index];
            proof {
                assert(routes@.take(index + 1) =~= routes@.take(index as int).push(*route));
            }
            projection.add_route(route, costs, Ghost(routes@.take(index as int)));
            index = index + 1;
        }
        assert(routes@.take(index as int) =~= routes@);
        projection
    }

    /// Projects one more route.
    fn add_route(
        &mut self,
        route: &Arc<NetRoute>,
        costs: &RoutingCosts,
        Ghost(known): Ghost<Seq<Arc<NetRoute>>>,
    )
        requires
            costs.wf(),
            old(self).projects(costs, known),
        ensures
            final(self).projects(costs, known.push(*route)),
    {
        let ghost before = *self;
        let net = route.net;
        self.routes.insert(net, share(route));
        let mut at: usize = 0;
        while at < route.arcs.len()
            invariant
                at <= route.arcs@.len(),
                costs.wf(),
                net == route.net,
                self.wf(),
                self.routes@ == before.routes@.insert(net, *route),
                forall|w: WireId| #[trigger]
                    owners_of(self.wire_owners@, w) == wire_after_arcs(
                        owners_of(before.wire_owners@, w),
                        costs,
                        net,
                        route.arcs@.take(at as int),
                        w,
                    ),
                forall|p: PipId| #[trigger]
                    owners_of(self.pip_owners@, p) == pip_after_arcs(
                        owners_of(before.pip_owners@, p),
                        costs,
                        net,
                        route.arcs@.take(at as int),
                        p,
                    ),
            decreases route.arcs@.len() - at,
        {
            let arc = &route.arcs[at];
            let criticality: u64 = match arc.sink {
                Some(sink) => routing_arc_criticality(Some(costs), net, sink),
                None => routing_criticality(Some(costs), net),
            };
            proof {
                assert(route.arcs@.take(at + 1).drop_last() =~= route.arcs@.take(at as int));
                assert(route.arcs@.take(at + 1).last() == *arc);
            }
            project_keys(&mut self.wire_owners, &arc.wires, net, criticality);
            project_keys(&mut self.pip_owners, &arc.pips, net, criticality);
            at = at + 1;
        }
        proof {
            assert(route.arcs@.take(at as int) =~= route.arcs@);
            let routes = known.push(*route);
            assert(routes.drop_last() =~= known);
            assert(routes.last() == *route);
            assert forall|w: WireId| #[trigger] owners_of(self.wire_owners@, w) == wire_projection(
                costs,
                routes,
                w,
            ) by {
                assert(owners_of(before.wire_owners@, w) == wire_projection(costs, known, w));
            }
            assert forall|p: PipId| #[trigger] owners_of(self.pip_owners@, p) == pip_projection(
                costs,
                routes,
                p,
            ) by {
                assert(owners_of(before.pip_owners@, p) == pip_projection(costs, known, p));
            }
        }
    }
}

/// A net that might have to give a resource up: the least critical first.
#[derive(Clone, Copy, Debug, PartialEq, Eq, Structural)]
pub struct VictimOrder {
    /// Criticality of the net.
    pub criticality: u64,
    /// Net.
    pub net: NetId,
}

impl OrderedKey for VictimOrder {
    open spec fn rank(self) -> int {
        self.criticality * 0x1_0000_0000_0000_0000 + self.net.0
    }

    proof fn rank_is_injective(a: Self, b: Self) {
    }

    fn precedes(self, other: Self) -> (result: bool) {
        self.criticality < other.criticality || (self.criticality == other.criticality
            && self.net.0 < other.net.0)
    }
}

/// The list with one more entry, behind all that do not come after it.
pub open spec fn inserted(list: Seq<VictimOrder>, entry: VictimOrder) -> Seq<VictimOrder>
    decreases list.len(),
{
    if list.len() == 0 {
        seq![entry]
    } else if entry.rank() < list.last().rank() {
        inserted(list.drop_last(), entry).push(list.last())
    } else {
        list.push(entry)
    }
}

/// Other owners, the least critical first.
pub open spec fn rivals(owners: Seq<ProjectedOwner>, moving: NetId) -> Seq<VictimOrder>
    decreases owners.len(),
{
    if owners.len() == 0 {
        Seq::empty()
    } else {
        let rest = rivals(owners.drop_last(), moving);
        let owner = owners.last();
        if owner.net == moving {
            rest
        } else {
            inserted(rest, VictimOrder { criticality: owner.criticality, net: owner.net })
        }
    }
}

/// Number of rivals that exceed the capacity beside the moving net.
pub open spec fn surplus(count: nat, capacity: u16) -> nat {
    let wanted = if count < usize::MAX {
        count + 1
    } else {
        usize::MAX as nat
    };
    let required = if wanted > capacity {
        wanted - capacity
    } else {
        0
    };
    (if required < count {
        required
    } else {
        count as int
    }) as nat
}

/// Rivals that have to give the resource up.
pub open spec fn victims(
    owners: Seq<ProjectedOwner>,
    moving: NetId,
    capacity: u16,
) -> Seq<VictimOrder> {
    let list = rivals(owners, moving);
    list.take(surplus(list.len(), capacity) as int)
}

/// The list is in order.
pub open spec fn in_order(list: Seq<VictimOrder>) -> bool {
    forall|i: int, j: int|
        0 <= i < j < list.len() ==> (#[trigger] list[i]).rank() <= (#[trigger] list[j]).rank()
}

/// Inserting keeps the order.
pub(crate) proof fn lemma_inserted_in_order(list: Seq<VictimOrder>, entry: VictimOrder)
    requires
        in_order(list),
    ensures
        in_order(inserted(list, entry)),
        inserted(list, entry).len() == list.len() + 1,
        forall|x: VictimOrder| #[trigger]
            inserted(list, entry).contains(x) <==> list.contains(x) || x == entry,
    decreases list.len(),
{
    let whole = inserted(list, entry);
    if list.len() == 0 {
        assert(whole[0] == entry);
    } else if entry.rank() < list.last().rank() {
        let rest = list.drop_last();
        assert forall|i: int, j: int| 0 <= i < j < rest.len() implies (#[trigger] rest[i]).rank()
            <= (#[trigger] rest[j]).rank() by {
            assert(list[i].rank() <= list[j].rank());
        }
        lemma_inserted_in_order(rest, entry);
        let part = inserted(rest, entry);
        assert forall|i: int, j: int| 0 <= i < j < whole.len() implies (#[trigger] whole[i]).rank()
            <= (#[trigger] whole[j]).rank() by {
            if j < part.len() {
                assert(part[i].rank() <= part[j].rank());
            } else {
                assert(part.contains(part[i]));
                if part[i] != entry {
                    let k = rest.index_of(part[i]);
                    assert(list[k].rank() <= list[list.len() - 1].rank());
                }
            }
        }
        assert forall|x: VictimOrder| #[trigger] whole.contains(x) <==> list.contains(x) || x
            == entry by {
            assert(part.contains(x) <==> rest.contains(x) || x == entry);
            assert(whole[part.len() as int] == list.last());
            assert(list[list.len() - 1] == list.last());
            if part.contains(x) {
                let k = part.index_of(x);
                assert(whole[k] == x);
            }
            if rest.contains(x) {
                let k = rest.index_of(x);
                assert(list[k] == x);
            }
            if list.contains(x) && x != list.last() {
                let k = list.index_of(x);
                assert(rest[k] == x);
            }
            if whole.contains(x) && x != list.last() {
                let k = whole.index_of(x);
                assert(part[k] == x);
            }
        }
    } else {
        assert forall|i: int, j: int| 0 <= i < j < whole.len() implies (#[trigger] whole[i]).rank()
            <= (#[trigger] whole[j]).rank() by {
            if j < list.len() {
                assert(list[i].rank() <= list[j].rank());
            } else if i < list.len() - 1 {
                assert(list[i].rank() <= list[list.len() - 1].rank());
            }
        }
        assert forall|x: VictimOrder| #[trigger] whole.contains(x) <==> list.contains(x) || x
            == entry by {
            assert(whole[list.len() as int] == entry);
            if list.contains(x) {
                let k = list.index_of(x);
                assert(whole[k] == x);
            }
            if whole.contains(x) && x != entry {
                let k = whole.index_of(x);
                assert(list[k] == x);
            }
        }
    }
}

/// Rivals are the other owners, the least critical first.
pub proof fn rivals_are_other_owners(owners: Seq<ProjectedOwner>, moving: NetId)
    ensures
        in_order(rivals(owners, moving)),
        rivals(owners, moving).len() <= owners.len(),
        forall|x: VictimOrder| #[trigger]
            rivals(owners, moving).contains(x) <==> x.net != moving && exists|i: int|
                0 <= i < owners.len() && (#[trigger] owners[i]).net == x.net
                    && owners[i].criticality == x.criticality,
    decreases owners.len(),
{
    let whole = rivals(owners, moving);
    if owners.len() > 0 {
        let rest = owners.drop_last();
        let owner = owners.last();
        rivals_are_other_owners(rest, moving);
        let part = rivals(rest, moving);
        let entry = VictimOrder { criticality: owner.criticality, net: owner.net };
        if owner.net != moving {
            lemma_inserted_in_order(part, entry);
        }
        assert forall|x: VictimOrder| #[trigger] whole.contains(x) <==> x.net != moving && exists|
            i: int,
        |
            0 <= i < owners.len() && (#[trigger] owners[i]).net == x.net && owners[i].criticality
                == x.criticality by {
            assert(part.contains(x) <==> x.net != moving && exists|i: int|
                0 <= i < rest.len() && (#[trigger] rest[i]).net == x.net && rest[i].criticality
                    == x.criticality);
            if part.contains(x) {
                let i = choose|i: int|
                    0 <= i < rest.len() && (#[trigger] rest[i]).net == x.net && rest[i].criticality
                        == x.criticality;
                assert(owners[i].net == x.net);
            }
            if x == entry {
                assert(owners[owners.len() - 1].net == x.net);
            }
            if x.net != moving && exists|i: int|
                0 <= i < owners.len() && (#[trigger] owners[i]).net == x.net
                    && owners[i].criticality == x.criticality {
                let i = choose|i: int|
                    0 <= i < owners.len() && (#[trigger] owners[i]).net == x.net
                        && owners[i].criticality == x.criticality;
                if i < rest.len() {
                    assert(rest[i].net == x.net);
                }
            }
        }
    }
}

/// Enters a rival in order.
fn insert_rival(list: &mut Vec<VictimOrder>, entry: VictimOrder)
    ensures
        final(list)@ == inserted(old(list)@, entry),
{
    let ghost before = list@;
    let mut at: usize = list.len();
    assert(before.take(before.len() as int) =~= before);
    assert(inserted(before, entry) + before.skip(before.len() as int) =~= inserted(before, entry));
    while at > 0 && entry.precedes(list[at - 1])
        invariant
            at <= list@.len(),
            list@ == before,
            before == old(list)@,
            inserted(before, entry) == inserted(before.take(at as int), entry) + before.skip(
                at as int,
            ),
        decreases at,
    {
        proof {
            let part = before.take(at as int);
            assert(part.last() == before[at - 1]);
            assert(part.drop_last() =~= before.take(at - 1));
            assert(inserted(before.take(at - 1), entry).push(before[at - 1]) + before.skip(
                at as int,
            ) =~= inserted(before.take(at - 1), entry) + before.skip(at - 1));
        }
        at = at - 1;
    }
    proof {
        let part = before.take(at as int);
        if at > 0 {
            assert(part.last() == before[at - 1]);
        }
        assert(inserted(part, entry) =~= part.push(entry));
        assert(before.insert(at as int, entry) =~= part.push(entry) + before.skip(at as int));
    }
    list.insert(at, entry);
}

/// Other owners, the least critical first.
fn find_rivals(owners: &Vec<ProjectedOwner>, moving: NetId) -> (result: Vec<VictimOrder>)
    ensures
        result@ == rivals(owners@, moving),
{
    let mut result: Vec<VictimOrder> = Vec::new();
    let mut at: usize = 0;
    while at < owners.len()
        invariant
            at <= owners@.len(),
            result@ == rivals(owners@.take(at as int), moving),
        decreases owners@.len() - at,
    {
        let owner = owners[at];
        proof {
            assert(owners@.take(at + 1).drop_last() =~= owners@.take(at as int));
            assert(owners@.take(at + 1).last() == owner);
        }
        if owner.net != moving {
            insert_rival(
                &mut result,
                VictimOrder { criticality: owner.criticality, net: owner.net },
            );
        }
        at = at + 1;
    }
    assert(owners@.take(at as int) =~= owners@);
    result
}

/// Number of rivals that exceed the capacity beside the moving net.
fn find_surplus(count: usize, capacity: u16) -> (result: usize)
    ensures
        result == surplus(count as nat, capacity),
        result <= count,
{
    let required: usize = count.saturating_add(1).saturating_sub(capacity as usize);
    if required < count {
        required
    } else {
        count
    }
}

/// Owners of an unlisted resource.
pub open spec fn listed_owners(owners: Option<&Vec<ProjectedOwner>>) -> Seq<ProjectedOwner> {
    match owners {
        Some(list) => list@,
        None => Seq::empty(),
    }
}

/// Nets that have to give the resource up, the least critical first.
pub fn projected_victim_nets(
    owners: Option<&Vec<ProjectedOwner>>,
    moving_net: NetId,
    capacity: u16,
) -> (result: Vec<NetId>)
    ensures
        result@ == victims(listed_owners(owners), moving_net, capacity).map_values(
            |victim: VictimOrder| victim.net,
        ),
{
    let list = match owners {
        None => Vec::new(),
        Some(owners) => find_rivals(owners, moving_net),
    };
    let ghost all = rivals(listed_owners(owners), moving_net);
    assert(list@ =~= all);
    let count: usize = find_surplus(list.len(), capacity);
    let ghost chosen = victims(listed_owners(owners), moving_net, capacity);
    let mut result: Vec<NetId> = Vec::new();
    let mut at: usize = 0;
    while at < count
        invariant
            at <= count <= list@.len(),
            list@ == all,
            chosen == all.take(count as int),
            result@.len() == at,
            forall|i: int| 0 <= i < at ==> #[trigger] result@[i] == chosen[i].net,
        decreases count - at,
    {
        result.push(list[at].net);
        at = at + 1;
    }
    assert(result@ =~= chosen.map_values(|victim: VictimOrder| victim.net));
    result
}

/// Price of taking a resource from the first victims.
pub open spec fn ripup_price(list: Seq<VictimOrder>) -> int
    decreases list.len(),
{
    if list.len() == 0 {
        0
    } else {
        clip_u64(
            ripup_price(list.drop_last()) + clip_u64(
                RIPUP_BASE_PS + clip_u64(list.last().criticality * CRITICALITY_PENALTY_PS),
            ),
        )
    }
}

/// Price of taking a resource from the nets that have to give it up.
pub fn projected_resource_penalty(
    owners: Option<&Vec<ProjectedOwner>>,
    moving_net: NetId,
    capacity: u16,
) -> (result: u64)
    ensures
        result == ripup_price(victims(listed_owners(owners), moving_net, capacity)),
{
    let list = match owners {
        None => Vec::new(),
        Some(owners) => find_rivals(owners, moving_net),
    };
    let ghost all = rivals(listed_owners(owners), moving_net);
    assert(list@ =~= all);
    let count: usize = find_surplus(list.len(), capacity);
    let ghost chosen = victims(listed_owners(owners), moving_net, capacity);
    let mut total: u64 = 0;
    let mut at: usize = 0;
    while at < count
        invariant
            at <= count <= list@.len(),
            list@ == all,
            chosen == all.take(count as int),
            total == ripup_price(chosen.take(at as int)),
        decreases count - at,
    {
        proof {
            assert(chosen.take(at + 1).drop_last() =~= chosen.take(at as int));
            assert(chosen.take(at + 1).last() == list@[at as int]);
            assert(list@[at as int].criticality * CRITICALITY_PENALTY_PS >= 0) by (nonlinear_arith);
        }
        let step: u64 = RIPUP_BASE_PS.saturating_add(
            saturating_product(list[at].criticality, CRITICALITY_PENALTY_PS),
        );
        total = total.saturating_add(step);
        at = at + 1;
    }
    assert(chosen.take(at as int) =~= chosen);
    total
}

/// Arcs of a net on the resource.
pub open spec fn arcs_of(owners: Seq<ProjectedOwner>, net: NetId) -> usize
    decreases owners.len(),
{
    if owners.len() == 0 {
        0
    } else if owners[0].net == net {
        owners[0].arcs
    } else {
        arcs_of(owners.drop_first(), net)
    }
}

/// Arcs of the first victims, as far as they are counted.
pub open spec fn released_arcs(owners: Seq<ProjectedOwner>, list: Seq<VictimOrder>) -> nat
    decreases list.len(),
{
    if list.len() == 0 {
        0
    } else {
        let sum = released_arcs(owners, list.drop_last()) + arcs_of(owners, list.last().net);
        if sum > usize::MAX {
            usize::MAX as nat
        } else {
            sum as nat
        }
    }
}

/// Price of releasing so many arcs.
pub open spec fn release_price(arcs: nat) -> int {
    if arcs > MAX_PROJECTED_BLOCKER_SINKS {
        OVERSIZED_TRANSACTION_PENALTY_PS as int
    } else {
        arcs * ARC_RELEASE_PENALTY_PS
    }
}

/// Arcs of a net on the resource.
fn find_arcs(owners: &Vec<ProjectedOwner>, net: NetId) -> (result: usize)
    ensures
        result == arcs_of(owners@, net),
{
    let mut at: usize = 0;
    assert(owners@.skip(0) =~= owners@);
    while at < owners.len()
        invariant
            at <= owners@.len(),
            arcs_of(owners@, net) == arcs_of(owners@.skip(at as int), net),
        decreases owners@.len() - at,
    {
        proof {
            assert(owners@.skip(at as int)[0] == owners@[at as int]);
            assert(owners@.skip(at as int).drop_first() =~= owners@.skip(at + 1));
        }
        if owners[at].net == net {
            return owners[at].arcs;
        }
        at = at + 1;
    }
    assert(owners@.skip(at as int).len() == 0);
    0
}

/// Price of releasing the arcs of the nets that have to give the resource up.
pub fn projected_release_scope_penalty(
    owners: Option<&Vec<ProjectedOwner>>,
    moving_net: NetId,
    capacity: u16,
) -> (result: u64)
    ensures
        result == release_price(
            released_arcs(
                listed_owners(owners),
                victims(listed_owners(owners), moving_net, capacity),
            ),
        ),
{
    let nets = projected_victim_nets(owners, moving_net, capacity);
    let ghost chosen = victims(listed_owners(owners), moving_net, capacity);
    let mut affected: usize = 0;
    let mut at: usize = 0;
    assert(nets@.len() == chosen.len());
    while at < nets.len()
        invariant
            at <= nets@.len(),
            nets@ == chosen.map_values(|victim: VictimOrder| victim.net),
            affected == released_arcs(listed_owners(owners), chosen.take(at as int)),
        decreases nets@.len() - at,
    {
        proof {
            assert(chosen.take(at + 1).drop_last() =~= chosen.take(at as int));
            assert(chosen.take(at + 1).last().net == nets@[at as int]);
        }
        let arcs: usize = match owners {
            Some(list) => find_arcs(list, nets[at]),
            None => 0,
        };
        affected = affected.saturating_add(arcs);
        at = at + 1;
    }
    assert(chosen.take(at as int) =~= chosen);
    if affected > MAX_PROJECTED_BLOCKER_SINKS {
        OVERSIZED_TRANSACTION_PENALTY_PS
    } else {
        (affected as u64) * ARC_RELEASE_PENALTY_PS
    }
}

} // verus!
