//! Which nets compete for which resources, and which connections give way.

use std::sync::Arc;

use vstd::prelude::*;

use crate::model::{Connection, NetId, PipId, WireId};
use crate::ordered::{OrderedKey, OrderedMap, OrderedSet};
use crate::route::{NetRoute, RouteArc};

verus! {

/// Wires or PIPs.
#[derive(Clone, Copy, Debug, PartialEq, Eq, Structural)]
pub enum ResourceClass {
    /// Wires.
    Wire,
    /// PIPs.
    Pip,
}

/// The arc passes the resource.
pub open spec fn arc_has(arc: RouteArc, class: ResourceClass, resource: usize) -> bool {
    match class {
        ResourceClass::Wire => arc.wires@.contains(WireId(resource)),
        ResourceClass::Pip => arc.pips@.contains(PipId(resource)),
    }
}

/// The route uses the resource.
pub open spec fn route_has(route: NetRoute, class: ResourceClass, resource: usize) -> bool {
    match class {
        ResourceClass::Wire => route.has_wire(WireId(resource)),
        ResourceClass::Pip => route.has_pip(PipId(resource)),
    }
}

/// Whether a list holds the key.
fn list_has<K: OrderedKey>(keys: &Vec<K>, key: K) -> (result: bool)
    ensures
        result == keys@.contains(key),
{
    let mut index: usize = 0;
    while index < keys.len()
        invariant
            index <= keys@.len(),
            forall|k: int| 0 <= k < index ==> #[trigger] keys@[k] != key,
        decreases keys@.len() - index,
    {
        if crate::ordered::same_key(keys[index], key) {
            assert(keys@[index as int] == key);
            return true;
        }
        index = index + 1;
    }
    false
}

/// Whether the arc passes the resource.
pub fn arc_uses(arc: &RouteArc, class: ResourceClass, resource: usize) -> (result: bool)
    ensures
        result == arc_has(*arc, class, resource),
{
    match class {
        ResourceClass::Wire => list_has(&arc.wires, WireId(resource)),
        ResourceClass::Pip => list_has(&arc.pips, PipId(resource)),
    }
}

/// Whether the route uses the resource.
pub fn route_uses(route: &NetRoute, class: ResourceClass, resource: usize) -> (result: bool)
    requires
        route.wf(),
    ensures
        result == route_has(*route, class, resource),
{
    match class {
        ResourceClass::Wire => route.wire_refs.contains_key(WireId(resource)),
        ResourceClass::Pip => route.pip_refs.contains_key(PipId(resource)),
    }
}

/// Every route of the slots is ordered.
pub open spec fn slots_wf(routes: Seq<Option<Arc<NetRoute>>>) -> bool {
    forall|i: int|
        0 <= i < routes.len() ==> ((#[trigger] routes[i]) matches Some(route) ==> route.wf())
}

/// A net that competes for a resource.
#[derive(Clone, Copy, Debug, PartialEq, Eq, PartialOrd, Ord, Hash, Structural)]
pub struct ResourceClaim {
    /// Index of the resource.
    pub resource: usize,
    /// Competing net.
    pub net: NetId,
}

impl OrderedKey for ResourceClaim {
    open spec fn rank(self) -> int {
        self.resource * 0x1_0000_0000_0000_0000 + self.net.0
    }

    proof fn rank_is_injective(a: Self, b: Self) {
    }

    fn precedes(self, other: Self) -> (result: bool) {
        self.resource < other.resource || (self.resource == other.resource && self.net.0
            < other.net.0)
    }
}

/// Owners of the capacity-one resources of one class, kept up to date as nets
/// are released and routed.
#[derive(Clone, Debug)]
pub struct OwnerIndex {
    /// One net that uses each resource.
    pub owners: OrderedMap<usize, NetId>,
    /// Resources that lost their owner while another net still uses them.
    pub stale: OrderedSet<usize>,
    /// Nets that met on one resource.
    pub conflicts: OrderedSet<ResourceClaim>,
}

/// First net at or after a slot that uses the resource.
pub open spec fn first_user(
    routes: Seq<Option<Arc<NetRoute>>>,
    class: ResourceClass,
    resource: usize,
    from: int,
) -> Option<NetId>
    decreases routes.len() - from,
{
    if from < 0 || from >= routes.len() {
        None
    } else {
        match routes[from] {
            Some(route) => if route_has(*route, class, resource) {
                Some(route.net)
            } else {
                first_user(routes, class, resource, from + 1)
            },
            None => first_user(routes, class, resource, from + 1),
        }
    }
}

/// Some arc of the net passes the resource and is not about to be released.
pub open spec fn survives(
    routes: Seq<Option<Arc<NetRoute>>>,
    dirty: Set<Connection>,
    class: ResourceClass,
    resource: usize,
    net: NetId,
) -> bool {
    &&& net.0 < routes.len()
    &&& routes[net.0 as int] matches Some(route) && exists|i: int|
        0 <= i < route.arcs@.len() && arc_has(#[trigger] route.arcs@[i], class, resource) && (
        route.arcs@[i].sink matches Some(sink) ==> !dirty.contains(Connection { net, sink }))
}

/// First contender for a resource that survives.
pub open spec fn survivor(
    claims: Seq<ResourceClaim>,
    routes: Seq<Option<Arc<NetRoute>>>,
    dirty: Set<Connection>,
    class: ResourceClass,
    resource: usize,
) -> Option<NetId>
    decreases claims.len(),
{
    if claims.len() == 0 {
        None
    } else if claims[0].resource == resource && survives(
        routes,
        dirty,
        class,
        resource,
        claims[0].net,
    ) {
        Some(claims[0].net)
    } else {
        survivor(claims.drop_first(), routes, dirty, class, resource)
    }
}

/// Some contender names the resource.
pub open spec fn contested(claims: Seq<ResourceClaim>, resource: usize) -> bool {
    exists|i: int| 0 <= i < claims.len() && (#[trigger] claims[i]).resource == resource
}

impl OwnerIndex {
    /// The tables are ordered.
    pub open spec fn wf(&self) -> bool {
        self.owners.wf() && self.stale.wf() && self.conflicts.wf()
    }

    /// No resource has an owner.
    pub fn new() -> (result: Self)
        ensures
            result.wf(),
            result.owners@ == Map::<usize, NetId>::empty(),
            result.stale@ == Set::<usize>::empty(),
            result.conflicts@ == Set::<ResourceClaim>::empty(),
    {
        OwnerIndex {
            owners: OrderedMap::new(),
            stale: OrderedSet::new(),
            conflicts: OrderedSet::new(),
        }
    }

    /// A net takes a resource: it becomes the owner, or it meets the owner.
    pub fn claim(&mut self, resource: usize, net: NetId, capacity: u16)
        requires
            old(self).wf(),
        ensures
            final(self).wf(),
            final(self).stale == old(self).stale,
            if capacity != 1 {
                final(self).owners@ == old(self).owners@ && final(self).conflicts@ == old(
                    self).conflicts@
            } else if old(self).owners@.contains_key(resource) {
                &&& final(self).owners@ == old(self).owners@
                &&& final(self).conflicts@ == if old(self).owners@[resource] == net {
                    old(self).conflicts@
                } else {
                    old(self).conflicts@.insert(
                        ResourceClaim { resource, net: old(self).owners@[resource] },
                    ).insert(ResourceClaim { resource, net })
                }
            } else {
                &&& final(self).owners@ == old(self).owners@.insert(resource, net)
                &&& final(self).conflicts@ == old(self).conflicts@
            },
    {
        if capacity != 1 {
            return ;
        }
        let owner = match self.owners.get(resource) {
            Some(owner) => Some(*owner),
            None => None,
        };
        match owner {
            Some(owner) => {
                if owner != net {
                    self.conflicts.insert(ResourceClaim { resource, net: owner });
                    self.conflicts.insert(ResourceClaim { resource, net });
                }
            },
            None => {
                self.owners.insert(resource, net);
            },
        }
    }

    /// A net gives a resource up.
    pub fn release(&mut self, resource: usize, net: NetId, capacity: u16, occupancy: u16)
        requires
            old(self).wf(),
        ensures
            final(self).wf(),
            final(self).conflicts == old(self).conflicts,
            if capacity == 1 && old(self).owners@.contains_key(resource) && old(
                self).owners@[resource] == net {
                &&& final(self).owners@ == old(self).owners@.remove(resource)
                &&& final(self).stale@ == if occupancy != 0 {
                    old(self).stale@.insert(resource)
                } else {
                    old(self).stale@
                }
            } else {
                final(self).owners@ == old(self).owners@ && final(self).stale@ == old(self).stale@
            },
    {
        if capacity != 1 {
            return ;
        }
        let owned = match self.owners.get(resource) {
            Some(owner) => *owner == net,
            None => false,
        };
        if owned {
            self.owners.remove(resource);
            if occupancy != 0 {
                self.stale.insert(resource);
            }
        }
    }

    /// First net that uses the resource.
    fn find_first_user(
        routes: &Vec<Option<Arc<NetRoute>>>,
        class: ResourceClass,
        resource: usize,
    ) -> (result: Option<NetId>)
        requires
            slots_wf(routes@),
        ensures
            result == first_user(routes@, class, resource, 0),
    {
        let mut index: usize = 0;
        while index < routes.len()
            invariant
                index <= routes@.len(),
                slots_wf(routes@),
                first_user(routes@, class, resource, 0) == first_user(
                    routes@,
                    class,
                    resource,
                    index as int,
                ),
            decreases routes@.len() - index,
        {
            assert(routes@[index as int] matches Some(route) ==> route.wf());
            if let Some(route) = &routes[index] {
                if route_uses(route, class, resource) {
                    return Some(route.net);
                }
            }
            index = index + 1;
        }
        None
    }

    /// Gives every stale resource its first remaining user as owner.
    pub fn repair_stale(&mut self, routes: &Vec<Option<Arc<NetRoute>>>, class: ResourceClass)
        requires
            old(self).wf(),
            slots_wf(routes@),
        ensures
            final(self).wf(),
            final(self).conflicts == old(self).conflicts,
            final(self).stale@ == Set::<usize>::empty(),
            forall|r: usize| #[trigger]
                final(self).owners@.contains_key(r) <==> old(self).owners@.contains_key(r) || (old(
                    self).stale@.contains(r) && first_user(routes@, class, r, 0) is Some),
            forall|r: usize| #[trigger]
                final(self).owners@.contains_key(r) ==> final(self).owners@[r] == if old(
                    self).stale@.contains(r) && first_user(routes@, class, r, 0) is Some {
                    first_user(routes@, class, r, 0)->0
                } else {
                    old(self).owners@[r]
                },
    {
        let ghost stale = self.stale.ordered();
        let mut index: usize = 0;
        while index < self.stale.len()
            invariant
                index <= stale.len(),
                stale == self.stale.ordered(),
                self.wf(),
                self.stale == old(self).stale,
                self.conflicts == old(self).conflicts,
                slots_wf(routes@),
                forall|r: usize| #[trigger]
                    self.owners@.contains_key(r) <==> old(self).owners@.contains_key(r) || (
                    stale.take(index as int).contains(r) && first_user(routes@, class, r, 0)
                        is Some),
                forall|r: usize| #[trigger]
                    self.owners@.contains_key(r) ==> self.owners@[r] == if stale.take(
                        index as int,
                    ).contains(r) && first_user(routes@, class, r, 0) is Some {
                        first_user(routes@, class, r, 0)->0
                    } else {
                        old(self).owners@[r]
                    },
            decreases stale.len() - index,
        {
            let resource: usize = self.stale.at(index);
            let ghost earlier = self.owners@;
            if let Some(net) = Self::find_first_user(routes, class, resource) {
                self.owners.insert(resource, net);
            }
            proof {
                lemma_take_contains(stale, index as int);
            }
            index = index + 1;
        }
        proof {
            assert(stale.take(index as int) =~= stale);
            assert forall|r: usize| stale.contains(r) <==> #[trigger] old(self).stale@.contains(r) by {
                old(self).stale.membership(r);
            }
        }
        self.stale = OrderedSet::new();
    }

    /// Whether a contender survives.
    fn contender_survives(
        routes: &Vec<Option<Arc<NetRoute>>>,
        dirty: &OrderedSet<Connection>,
        class: ResourceClass,
        resource: usize,
        net: NetId,
    ) -> (result: bool)
        requires
            dirty.wf(),
        ensures
            result == survives(routes@, dirty@, class, resource, net),
    {
        if net.0 >= routes.len() {
            return false;
        }
        match &routes[net.0] {
            None => false,
            Some(route) => {
                let mut index: usize = 0;
                while index < route.arcs.len()
                    invariant
                        index <= route.arcs@.len(),
                        dirty.wf(),
                        net.0 < routes@.len(),
                        routes@[net.0 as int] == Some(*route),
                        forall|i: int|
                            0 <= i < index ==> !(arc_has(
                                #[trigger] route.arcs@[i],
                                class,
                                resource,
                            ) && (route.arcs@[i].sink matches Some(sink) ==> !dirty@.contains(
                                Connection { net, sink },
                            ))),
                    decreases route.arcs@.len() - index,
                {
                    let arc = &route.arcs[index];
                    if arc_uses(arc, class, resource) {
                        let kept = match arc.sink {
                            None => true,
                            Some(sink) => !dirty.contains(Connection { net, sink }),
                        };
                        if kept {
                            assert(arc_has(route.arcs@[index as int], class, resource));
                            return true;
                        }
                    }
                    index = index + 1;
                }
                false
            },
        }
    }

    /// First contender for a resource that survives.
    fn find_survivor(
        &self,
        routes: &Vec<Option<Arc<NetRoute>>>,
        dirty: &OrderedSet<Connection>,
        class: ResourceClass,
        resource: usize,
    ) -> (result: Option<NetId>)
        requires
            dirty.wf(),
        ensures
            result == survivor(self.conflicts.ordered(), routes@, dirty@, class, resource),
    {
        let ghost claims = self.conflicts.ordered();
        let mut index: usize = 0;
        assert(claims.skip(0) =~= claims);
        while index < self.conflicts.len()
            invariant
                index <= claims.len(),
                claims == self.conflicts.ordered(),
                dirty.wf(),
                survivor(claims, routes@, dirty@, class, resource) == survivor(
                    claims.skip(index as int),
                    routes@,
                    dirty@,
                    class,
                    resource,
                ),
            decreases claims.len() - index,
        {
            let claim = self.conflicts.at(index);
            assert(claims.skip(index as int)[0] == claim);
            assert(claims.skip(index as int).drop_first() =~= claims.skip(index + 1));
            if claim.resource == resource && Self::contender_survives(
                routes,
                dirty,
                class,
                resource,
                claim.net,
            ) {
                return Some(claim.net);
            }
            index = index + 1;
        }
        assert(claims.skip(index as int).len() == 0);
        None
    }

    /// Gives every contested resource to the first contender that keeps using it.
    pub fn resolve_conflicts(
        &mut self,
        routes: &Vec<Option<Arc<NetRoute>>>,
        dirty: &OrderedSet<Connection>,
        class: ResourceClass,
    )
        requires
            old(self).wf(),
            dirty.wf(),
        ensures
            final(self).wf(),
            final(self).stale == old(self).stale,
            final(self).conflicts@ == Set::<ResourceClaim>::empty(),
            forall|r: usize| #[trigger]
                final(self).owners@.contains_key(r) <==> if contested(
                    old(self).conflicts.ordered(),
                    r,
                ) {
                    survivor(old(self).conflicts.ordered(), routes@, dirty@, class, r) is Some
                } else {
                    old(self).owners@.contains_key(r)
                },
            forall|r: usize| #[trigger]
                final(self).owners@.contains_key(r) ==> final(self).owners@[r] == if contested(
                    old(self).conflicts.ordered(),
                    r,
                ) {
                    survivor(old(self).conflicts.ordered(), routes@, dirty@, class, r)->0
                } else {
                    old(self).owners@[r]
                },
    {
        let ghost claims = self.conflicts.ordered();
        let mut index: usize = 0;
        while index < self.conflicts.len()
            invariant
                index <= claims.len(),
                claims == self.conflicts.ordered(),
                self.wf(),
                self.stale == old(self).stale,
                self.conflicts == old(self).conflicts,
                dirty.wf(),
                forall|r: usize| #[trigger]
                    self.owners@.contains_key(r) <==> if contested(
                        claims.take(index as int),
                        r,
                    ) {
                        survivor(claims, routes@, dirty@, class, r) is Some
                    } else {
                        old(self).owners@.contains_key(r)
                    },
                forall|r: usize| #[trigger]
                    self.owners@.contains_key(r) ==> self.owners@[r] == if contested(
                        claims.take(index as int),
                        r,
                    ) {
                        survivor(claims, routes@, dirty@, class, r)->0
                    } else {
                        old(self).owners@[r]
                    },
            decreases claims.len() - index,
        {
            let resource: usize = self.conflicts.at(index).resource;
            let ghost earlier = self.owners@;
            match self.find_survivor(routes, dirty, class, resource) {
                Some(net) => {
                    self.owners.insert(resource, net);
                },
                None => {
                    self.owners.remove(resource);
                },
            }
            proof {
                assert forall|r: usize| #[trigger] contested(claims.take(index + 1), r)
                    <==> contested(claims.take(index as int), r) || r == resource by {
                    let shorter = claims.take(index as int);
                    let longer = claims.take(index + 1);
                    if contested(shorter, r) {
                        let i = choose|i: int|
                            0 <= i < shorter.len() && (#[trigger] shorter[i]).resource == r;
                        assert(longer[i].resource == r);
                    }
                    if r == resource {
                        assert(longer[index as int].resource == r);
                    }
                    if contested(longer, r) && r != resource {
                        let i = choose|i: int|
                            0 <= i < longer.len() && (#[trigger] longer[i]).resource == r;
                        assert(shorter[i].resource == r);
                    }
                }
                assert forall|r: usize| #[trigger] self.owners@.contains_key(r) <==> if contested(
                    claims.take(index + 1),
                    r,
                ) {
                    survivor(claims, routes@, dirty@, class, r) is Some
                } else {
                    old(self).owners@.contains_key(r)
                } by {
                    assert(earlier.contains_key(r) <==> if contested(claims.take(index as int), r) {
                        survivor(claims, routes@, dirty@, class, r) is Some
                    } else {
                        old(self).owners@.contains_key(r)
                    });
                    assert(contested(claims.take(index + 1), r) <==> contested(
                        claims.take(index as int),
                        r,
                    ) || r == resource);
                }
            }
            index = index + 1;
        }
        proof {
            assert(claims.take(index as int) =~= claims);
        }
        self.conflicts = OrderedSet::new();
    }
}

/// One more entry taken adds that entry to those contained.
proof fn lemma_take_contains<T>(items: Seq<T>, index: int)
    requires
        0 <= index < items.len(),
    ensures
        forall|x: T| #[trigger]
            items.take(index + 1).contains(x) <==> items.take(index).contains(x) || x == items[index],
{
    let longer = items.take(index + 1);
    let shorter = items.take(index);
    assert forall|x: T| #[trigger] longer.contains(x) <==> shorter.contains(x) || x == items[index] by {
        if shorter.contains(x) {
            let i = shorter.index_of(x);
            assert(longer[i] == x);
        }
        assert(longer[index] == items[index]);
        if longer.contains(x) && x != items[index] {
            let i = longer.index_of(x);
            assert(shorter[i] == x);
        }
    }
}

} // verus!
