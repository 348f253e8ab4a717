//! Owner index of a net that is released or routed.

use vstd::prelude::*;

use crate::model::NetId;
use crate::occupancy::{indices, kept_indices, ResourceId, ResourceTable};
use crate::ordered::OrderedMap;
use crate::owners::{OwnerIndex, ResourceClaim};

verus! {

/// The resource carries one net alone, and the net owns it.
pub open spec fn is_owned(
    owners: OwnerIndex,
    table: ResourceTable,
    resource: usize,
    net: NetId,
) -> bool {
    &&& resource < table.capacities@.len()
    &&& table.capacities@[resource as int] == 1
    &&& owners.owners@.contains_key(resource)
    &&& owners.owners@[resource] == net
}

/// The net gave the resources up: it owns none of them, and those that another
/// net still uses are stale.
pub open spec fn are_released(
    before: OwnerIndex,
    gone: Set<int>,
    net: NetId,
    table: ResourceTable,
    after: OwnerIndex,
) -> bool {
    &&& after.conflicts@ == before.conflicts@
    &&& forall|r: usize| #[trigger]
        after.owners@.contains_key(r) <==> before.owners@.contains_key(r) && !(gone.contains(
            r as int,
        ) && is_owned(before, table, r, net))
    &&& forall|r: usize| #[trigger]
        after.owners@.contains_key(r) ==> after.owners@[r] == before.owners@[r]
    &&& forall|r: usize| #[trigger]
        after.stale@.contains(r) <==> before.stale@.contains(r) || (gone.contains(r as int)
            && is_owned(before, table, r, net) && table.occupancy@[r as int] != 0)
}

/// The net met the owner of the resource.
pub open spec fn meets(
    owners: OwnerIndex,
    table: ResourceTable,
    net: NetId,
    claim: ResourceClaim,
) -> bool {
    let r = claim.resource;
    &&& r < table.capacities@.len()
    &&& table.capacities@[r as int] == 1
    &&& owners.owners@.contains_key(r)
    &&& owners.owners@[r] != net
    &&& claim.net == net || claim.net == owners.owners@[r]
}

/// The net took the resources: it owns those without an owner, and conflicts
/// with the owners of the others.
pub open spec fn are_claimed(
    before: OwnerIndex,
    taken: Set<int>,
    net: NetId,
    table: ResourceTable,
    after: OwnerIndex,
) -> bool {
    &&& after.stale@ == before.stale@
    &&& forall|r: usize| #[trigger]
        after.owners@.contains_key(r) <==> before.owners@.contains_key(r) || (taken.contains(
            r as int,
        ) && r < table.capacities@.len() && table.capacities@[r as int] == 1)
    &&& forall|r: usize| #[trigger]
        after.owners@.contains_key(r) ==> after.owners@[r] == if before.owners@.contains_key(r) {
            before.owners@[r]
        } else {
            net
        }
    &&& forall|c: ResourceClaim| #[trigger]
        after.conflicts@.contains(c) <==> before.conflicts@.contains(c) || (taken.contains(
            c.resource as int,
        ) && meets(before, table, net, c))
}

/// Resources of the first keys that a table does not name.
spec fn passed<K: ResourceId>(keys: Seq<K>, count: int, other: Set<int>) -> Set<int> {
    Set::new(
        |r: int|
            !other.contains(r) && exists|i: int|
                0 <= i < count && (#[trigger] keys[i]).rank() == r,
    )
}

/// One more key adds its own resource.
proof fn lemma_passed<K: ResourceId>(keys: Seq<K>, index: int, other: Set<int>)
    requires
        0 <= index < keys.len(),
        crate::ordered::increasing(keys),
    ensures
        !passed(keys, index, other).contains(keys[index].rank()),
        other.contains(keys[index].rank()) ==> passed(keys, index + 1, other) == passed(
            keys,
            index,
            other,
        ),
        !other.contains(keys[index].rank()) ==> passed(keys, index + 1, other) == passed(
            keys,
            index,
            other,
        ).insert(keys[index].rank()),
{
    let rank = keys[index].rank();
    if passed(keys, index, other).contains(rank) {
        let i = choose|i: int| 0 <= i < index && (#[trigger] keys[i]).rank() == rank;
        assert(keys[i].rank() < keys[index].rank());
    }
    let longer = passed(keys, index + 1, other);
    let shorter = passed(keys, index, other);
    assert forall|r: int| longer.contains(r) == (shorter.contains(r) || (r == rank
        && !other.contains(rank))) by {
        if shorter.contains(r) {
            let i = choose|i: int| 0 <= i < index && (#[trigger] keys[i]).rank() == r;
            assert(keys[i].rank() == r);
        }
        if longer.contains(r) {
            let i = choose|i: int| 0 <= i < index + 1 && (#[trigger] keys[i]).rank() == r;
            assert(i == index || keys[i].rank() == r);
        }
    }
    if other.contains(rank) {
        assert(longer =~= shorter);
    } else {
        assert(longer =~= shorter.insert(rank));
    }
}

/// The keys of a table are its resources.
proof fn lemma_all_passed<K: ResourceId>(table: OrderedMap<K, u32>, other: Set<int>)
    requires
        table.wf(),
    ensures
        passed(table.ordered(), table.ordered().len() as int, other) == indices(table).difference(
            other,
        ),
{
    let keys = table.ordered();
    assert forall|r: int| passed(keys, keys.len() as int, other).contains(r) == indices(
        table,
    ).difference(other).contains(r) by {
        if passed(keys, keys.len() as int, other).contains(r) {
            let i = choose|i: int| 0 <= i < keys.len() && (#[trigger] keys[i]).rank() == r;
            table.entry(i);
        }
        if indices(table).contains(r) && !other.contains(r) {
            let k = choose|k: K| #[trigger] table@.contains_key(k) && k.rank() == r;
            let i = table.key_index(k);
            assert(keys[i].rank() == r);
        }
    }
    assert(passed(keys, keys.len() as int, other) =~= indices(table).difference(other));
}

/// A table names a key where it names its resource.
proof fn lemma_named<K: ResourceId>(table: OrderedMap<K, u32>, key: K)
    ensures
        table@.contains_key(key) <==> indices(table).contains(key.rank()),
{
    if indices(table).contains(key.rank()) {
        let k = choose|k: K| #[trigger] table@.contains_key(k) && k.rank() == key.rank();
        K::rank_is_injective(k, key);
    }
}

/// A net gives up the resources that one table names and another does not.
pub(crate) fn release_owners<K: ResourceId>(
    owners: &mut OwnerIndex,
    released: &OrderedMap<K, u32>,
    kept: &OrderedMap<K, u32>,
    net: NetId,
    table: &ResourceTable,
)
    requires
        old(owners).wf(),
        released.wf(),
        kept.wf(),
        table.wf(table.capacities@.len() as int),
        forall|r: int| #[trigger]
            indices(*released).contains(r) ==> 0 <= r < table.capacities@.len(),
    ensures
        final(owners).wf(),
        are_released(
            *old(owners),
            indices(*released).difference(indices(*kept)),
            net,
            *table,
            *final(owners),
        ),
{
    let ghost other = indices(*kept);
    let ghost keys = released.ordered();
    let mut index: usize = 0;
    while index < released.len()
        invariant
            index <= released.ordered().len(),
            owners.wf(),
            released.wf(),
            kept.wf(),
            keys == released.ordered(),
            other == indices(*kept),
            table.wf(table.capacities@.len() as int),
            forall|r: int| #[trigger]
                indices(*released).contains(r) ==> 0 <= r < table.capacities@.len(),
            are_released(
                *old(owners),
                passed(keys, index as int, other),
                net,
                *table,
                *owners,
            ),
        decreases released.ordered().len() - index,
    {
        let key = released.key_at(index);
        proof {
            released.entry(index as int);
            assert(indices(*released).contains(key.rank()));
            lemma_passed(keys, index as int, other);
            lemma_named(*kept, key);
        }
        let ghost before = *owners;
        if !kept.contains_key(key) {
            let resource: usize = key.index();
            owners.release(
                resource,
                net,
                table.capacities[resource],
                table.occupancy[resource],
            );
            proof {
                let first = *old(owners);
                let shorter = passed(keys, index as int, other);
                let longer = passed(keys, index + 1, other);
                assert(before.owners@.contains_key(resource)
                    <==> first.owners@.contains_key(resource));
                assert forall|r: usize| #[trigger] owners.owners@.contains_key(r)
                    <==> first.owners@.contains_key(r) && !(longer.contains(r as int)
                    && is_owned(first, *table, r, net)) by {
                    assert(before.owners@.contains_key(r) <==> first.owners@.contains_key(r)
                        && !(shorter.contains(r as int) && is_owned(first, *table, r, net)));
                }
                assert forall|r: usize| #[trigger] owners.owners@.contains_key(r) implies owners.owners@[
                r] == first.owners@[r] by {
                    assert(before.owners@.contains_key(r));
                }
                assert forall|r: usize| #[trigger] owners.stale@.contains(r)
                    <==> first.stale@.contains(r) || (longer.contains(r as int) && is_owned(
                    first,
                    *table,
                    r,
                    net,
                ) && table.occupancy@[r as int] != 0) by {
                    assert(before.stale@.contains(r) <==> first.stale@.contains(r) || (
                    shorter.contains(r as int) && is_owned(first, *table, r, net)
                        && table.occupancy@[r as int] != 0));
                }
            }
        }
        index = index + 1;
    }
    proof {
        lemma_all_passed(*released, other);
    }
}

/// A net takes the resources that one table names and another does not.
pub(crate) fn claim_owners<K: ResourceId>(
    owners: &mut OwnerIndex,
    claimed: &OrderedMap<K, u32>,
    known: Option<&OrderedMap<K, u32>>,
    net: NetId,
    table: &ResourceTable,
)
    requires
        old(owners).wf(),
        claimed.wf(),
        known matches Some(known) ==> known.wf(),
        table.wf(table.capacities@.len() as int),
        forall|r: int| #[trigger]
            indices(*claimed).contains(r) ==> 0 <= r < table.capacities@.len(),
    ensures
        final(owners).wf(),
        are_claimed(
            *old(owners),
            indices(*claimed).difference(kept_indices(known)),
            net,
            *table,
            *final(owners),
        ),
{
    let ghost other = kept_indices(known);
    let ghost keys = claimed.ordered();
    let mut index: usize = 0;
    while index < claimed.len()
        invariant
            index <= claimed.ordered().len(),
            owners.wf(),
            claimed.wf(),
            known matches Some(known) ==> known.wf(),
            keys == claimed.ordered(),
            other == kept_indices(known),
            table.wf(table.capacities@.len() as int),
            forall|r: int| #[trigger]
                indices(*claimed).contains(r) ==> 0 <= r < table.capacities@.len(),
            are_claimed(*old(owners), passed(keys, index as int, other), net, *table, *owners),
        decreases claimed.ordered().len() - index,
    {
        let key = claimed.key_at(index);
        proof {
            claimed.entry(index as int);
            assert(indices(*claimed).contains(key.rank()));
            lemma_passed(keys, index as int, other);
            if let Some(known) = known {
                lemma_named(*known, key);
            }
        }
        let fresh = match known {
            None => true,
            Some(known) => !known.contains_key(key),
        };
        let ghost before = *owners;
        if fresh {
            let resource: usize = key.index();
            owners.claim(resource, net, table.capacities[resource]);
            proof {
                let first = *old(owners);
                let shorter = passed(keys, index as int, other);
                let longer = passed(keys, index + 1, other);
                assert(before.owners@.contains_key(resource)
                    <==> first.owners@.contains_key(resource));
                assert forall|r: usize| #[trigger] owners.owners@.contains_key(r)
                    <==> first.owners@.contains_key(r) || (longer.contains(r as int) && r
                    < table.capacities@.len() && table.capacities@[r as int] == 1) by {
                    assert(before.owners@.contains_key(r) <==> first.owners@.contains_key(r) || (
                    shorter.contains(r as int) && r < table.capacities@.len()
                        && table.capacities@[r as int] == 1));
                }
                assert forall|r: usize| #[trigger] owners.owners@.contains_key(r) implies owners.owners@[
                r] == if first.owners@.contains_key(r) {
                    first.owners@[r]
                } else {
                    net
                } by {
                    if r != resource {
                        assert(before.owners@.contains_key(r));
                    }
                }
                assert forall|c: ResourceClaim| #[trigger] owners.conflicts@.contains(c)
                    <==> first.conflicts@.contains(c) || (longer.contains(c.resource as int)
                    && meets(first, *table, net, c)) by {
                    assert(before.conflicts@.contains(c) <==> first.conflicts@.contains(c) || (
                    shorter.contains(c.resource as int) && meets(first, *table, net, c)));
                }
            }
        }
        index = index + 1;
    }
    proof {
        lemma_all_passed(*claimed, other);
    }
}

} // verus!
