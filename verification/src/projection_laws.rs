//! Who owns a resource, and what taking it from its owners costs.

use std::sync::Arc;

use vstd::prelude::*;

use crate::device::Device;
use crate::hold_laws::delay_sum;
use crate::local_delay::{ends_within, takes_step, walk_price, HopPrices};
use crate::model::{NetId, PipId, WireId};
use crate::projected_cost::{
    is_projected_cost, prices_from, start_corridor, starts_inside, ProjectedPrices,
};
use crate::projection::{
    after_keys, owners_of, pip_after_arcs, pip_projection, release_price, ripup_price, rivals,
    victims, wire_after_arcs, wire_projection, with_use, ProjectedOwner, RouteCapacityProjection,
    VictimOrder,
};
use crate::ordered::{OrderedKey, OrderedSet};
use crate::route::{NetRoute, RouteArc};
use crate::routing_costs::RoutingCosts;
use crate::timing_laws::{connection_criticality, listed_criticality};

verus! {

/// Criticality of an arc by the caller's tables: that of its sink, or without a sink
/// that of its net.
pub open spec fn arc_weight(costs: &RoutingCosts, net: NetId, arc: RouteArc) -> int {
    match arc.sink {
        Some(sink) => connection_criticality(Some(costs), net, sink),
        None => listed_criticality(Some(costs), net),
    }
}

/// Some owner is the net, with at least this criticality.
spec fn covers(owners: Seq<ProjectedOwner>, net: NetId, criticality: int) -> bool {
    exists|k: int|
        0 <= k < owners.len() && (#[trigger] owners[k]).net == net && owners[k].criticality
            >= criticality
}

/// Every owner has its net and criticality from somewhere.
spec fn all_from(owners: Seq<ProjectedOwner>, origin: spec_fn(NetId, u64) -> bool) -> bool {
    forall|k: int|
        0 <= k < owners.len() ==> origin((#[trigger] owners[k]).net, owners[k].criticality)
}

/// One more use is covered, and what was covered stays so.
proof fn lemma_with_use(
    owners: Seq<ProjectedOwner>,
    net: NetId,
    criticality: u64,
    other: NetId,
    known: int,
    origin: spec_fn(NetId, u64) -> bool,
)
    ensures
        covers(with_use(owners, net, criticality), net, criticality as int),
        covers(owners, other, known) ==> covers(
            with_use(owners, net, criticality),
            other,
            known,
        ),
        all_from(owners, origin) && origin(net, criticality) ==> all_from(
            with_use(owners, net, criticality),
            origin,
        ),
    decreases owners.len(),
{
    let more = with_use(owners, net, criticality);
    if owners.len() == 0 {
        assert(more[0].net == net);
    } else {
        let rest = owners.drop_first();
        if owners[0].net == net {
            assert(more[0].net == net && more[0].criticality >= criticality);
            if covers(owners, other, known) {
                let k = choose|k: int|
                    0 <= k < owners.len() && (#[trigger] owners[k]).net == other
                        && owners[k].criticality >= known;
                if k == 0 {
                    assert(more[0].net == other && more[0].criticality >= known);
                } else {
                    assert(rest[k - 1] == owners[k]);
                    assert(more[k] == owners[k]);
                }
            }
            if all_from(owners, origin) && origin(net, criticality) {
                assert forall|k: int| 0 <= k < more.len() implies origin(
                    (#[trigger] more[k]).net,
                    more[k].criticality,
                ) by {
                    if k > 0 {
                        assert(more[k] == owners[k]);
                    } else {
                        assert(origin(owners[0].net, owners[0].criticality));
                    }
                }
            }
        } else {
            lemma_with_use(rest, net, criticality, other, known, origin);
            let part = with_use(rest, net, criticality);
            assert forall|k: int| 0 <= k < part.len() implies #[trigger] part[k] == more[k + 1] by {}
            let j = choose|k: int|
                0 <= k < part.len() && (#[trigger] part[k]).net == net && part[k].criticality
                    >= criticality as int;
            assert(more[j + 1].net == net);
            if covers(owners, other, known) {
                let k = choose|k: int|
                    0 <= k < owners.len() && (#[trigger] owners[k]).net == other
                        && owners[k].criticality >= known;
                if k == 0 {
                    assert(more[0].net == other && more[0].criticality >= known);
                } else {
                    assert(rest[k - 1] == owners[k]);
                    assert(covers(rest, other, known));
                    let i = choose|i: int|
                        0 <= i < part.len() && (#[trigger] part[i]).net == other
                            && part[i].criticality >= known;
                    assert(more[i + 1].net == other);
                }
            }
            if all_from(owners, origin) && origin(net, criticality) {
                assert forall|k: int| 0 <= k < rest.len() implies origin(
                    (#[trigger] rest[k]).net,
                    rest[k].criticality,
                ) by {
                    assert(rest[k] == owners[k + 1]);
                }
                assert(all_from(part, origin));
                assert forall|k: int| 0 <= k < more.len() implies origin(
                    (#[trigger] more[k]).net,
                    more[k].criticality,
                ) by {
                    if k > 0 {
                        assert(part[k - 1] == more[k]);
                        assert(origin(part[k - 1].net, part[k - 1].criticality));
                    } else {
                        assert(origin(owners[0].net, owners[0].criticality));
                    }
                }
            }
        }
    }
}

/// The uses of some keys are covered.
proof fn lemma_after_keys<K>(
    owners: Seq<ProjectedOwner>,
    keys: Seq<K>,
    key: K,
    net: NetId,
    criticality: u64,
    other: NetId,
    known: int,
    origin: spec_fn(NetId, u64) -> bool,
)
    ensures
        keys.contains(key) ==> covers(
            after_keys(owners, keys, key, net, criticality),
            net,
            criticality as int,
        ),
        covers(owners, other, known) ==> covers(
            after_keys(owners, keys, key, net, criticality),
            other,
            known,
        ),
        all_from(owners, origin) && (keys.contains(key) ==> origin(net, criticality))
            ==> all_from(after_keys(owners, keys, key, net, criticality), origin),
    decreases keys.len(),
{
    if keys.len() > 0 {
        let rest = keys.drop_last();
        lemma_after_keys(owners, rest, key, net, criticality, other, known, origin);
        lemma_after_keys(
            owners,
            rest,
            key,
            net,
            criticality,
            net,
            criticality as int,
            origin,
        );
        let before = after_keys(owners, rest, key, net, criticality);
        if keys.last() == key {
            assert(keys[keys.len() - 1] == key);
            assert(keys.contains(key));
            lemma_with_use(before, net, criticality, other, known, origin);
        } else if keys.contains(key) {
            let k = keys.index_of(key);
            assert(rest[k] == key);
        }
        if rest.contains(key) {
            let k = rest.index_of(key);
            assert(keys[k] == key);
        }
    }
}

/// The uses of some arcs are covered.
proof fn lemma_wire_arcs(
    owners: Seq<ProjectedOwner>,
    costs: &RoutingCosts,
    net: NetId,
    arcs: Seq<RouteArc>,
    wire: WireId,
    other: NetId,
    known: int,
    origin: spec_fn(NetId, u64) -> bool,
)
    ensures
        forall|i: int|
            0 <= i < arcs.len() && (#[trigger] arcs[i]).wires@.contains(wire) ==> covers(
                wire_after_arcs(owners, costs, net, arcs, wire),
                net,
                arc_weight(costs, net, arcs[i]),
            ),
        covers(owners, other, known) ==> covers(
            wire_after_arcs(owners, costs, net, arcs, wire),
            other,
            known,
        ),
        all_from(owners, origin) && (forall|i: int|
            0 <= i < arcs.len() && (#[trigger] arcs[i]).wires@.contains(wire) ==> origin(
                net,
                arc_weight(costs, net, arcs[i]) as u64,
            )) ==> all_from(wire_after_arcs(owners, costs, net, arcs, wire), origin),
    decreases arcs.len(),
{
    if arcs.len() > 0 {
        let rest = arcs.drop_last();
        let last = arcs.last();
        lemma_wire_arcs(owners, costs, net, rest, wire, other, known, origin);
        let before = wire_after_arcs(owners, costs, net, rest, wire);
        let weight = crate::projection::projected_criticality(costs, net, last);
        assert(weight as int == arc_weight(costs, net, last));
        assert(arcs[arcs.len() - 1] == last);
        lemma_after_keys(before, last.wires@, wire, net, weight, other, known, origin);
        assert forall|i: int|
            0 <= i < arcs.len() && (#[trigger] arcs[i]).wires@.contains(wire) implies covers(
            wire_after_arcs(owners, costs, net, arcs, wire),
            net,
            arc_weight(costs, net, arcs[i]),
        ) by {
            if i < arcs.len() - 1 {
                assert(rest[i] == arcs[i]);
                lemma_after_keys(
                    before,
                    last.wires@,
                    wire,
                    net,
                    weight,
                    net,
                    arc_weight(costs, net, arcs[i]),
                    origin,
                );
            }
        }
        if all_from(owners, origin) && (forall|i: int|
            0 <= i < arcs.len() && (#[trigger] arcs[i]).wires@.contains(wire) ==> origin(
                net,
                arc_weight(costs, net, arcs[i]) as u64,
            )) {
            assert forall|i: int|
                0 <= i < rest.len() && (#[trigger] rest[i]).wires@.contains(wire) implies origin(
                net,
                arc_weight(costs, net, rest[i]) as u64,
            ) by {
                assert(arcs[i] == rest[i]);
            }
        }
    }
}

/// The uses of some arcs are covered.
proof fn lemma_pip_arcs(
    owners: Seq<ProjectedOwner>,
    costs: &RoutingCosts,
    net: NetId,
    arcs: Seq<RouteArc>,
    pip: PipId,
    other: NetId,
    known: int,
    origin: spec_fn(NetId, u64) -> bool,
)
    ensures
        forall|i: int|
            0 <= i < arcs.len() && (#[trigger] arcs[i]).pips@.contains(pip) ==> covers(
                pip_after_arcs(owners, costs, net, arcs, pip),
                net,
                arc_weight(costs, net, arcs[i]),
            ),
        covers(owners, other, known) ==> covers(
            pip_after_arcs(owners, costs, net, arcs, pip),
            other,
            known,
        ),
        all_from(owners, origin) && (forall|i: int|
            0 <= i < arcs.len() && (#[trigger] arcs[i]).pips@.contains(pip) ==> origin(
                net,
                arc_weight(costs, net, arcs[i]) as u64,
            )) ==> all_from(pip_after_arcs(owners, costs, net, arcs, pip), origin),
    decreases arcs.len(),
{
    if arcs.len() > 0 {
        let rest = arcs.drop_last();
        let last = arcs.last();
        lemma_pip_arcs(owners, costs, net, rest, pip, other, known, origin);
        let before = pip_after_arcs(owners, costs, net, rest, pip);
        let weight = crate::projection::projected_criticality(costs, net, last);
        assert(weight as int == arc_weight(costs, net, last));
        assert(arcs[arcs.len() - 1] == last);
        lemma_after_keys(before, last.pips@, pip, net, weight, other, known, origin);
        assert forall|i: int|
            0 <= i < arcs.len() && (#[trigger] arcs[i]).pips@.contains(pip) implies covers(
            pip_after_arcs(owners, costs, net, arcs, pip),
            net,
            arc_weight(costs, net, arcs[i]),
        ) by {
            if i < arcs.len() - 1 {
                assert(rest[i] == arcs[i]);
                lemma_after_keys(
                    before,
                    last.pips@,
                    pip,
                    net,
                    weight,
                    net,
                    arc_weight(costs, net, arcs[i]),
                    origin,
                );
            }
        }
        if all_from(owners, origin) && (forall|i: int|
            0 <= i < arcs.len() && (#[trigger] arcs[i]).pips@.contains(pip) ==> origin(
                net,
                arc_weight(costs, net, arcs[i]) as u64,
            )) {
            assert forall|i: int|
                0 <= i < rest.len() && (#[trigger] rest[i]).pips@.contains(pip) implies origin(
                net,
                arc_weight(costs, net, rest[i]) as u64,
            ) by {
                assert(arcs[i] == rest[i]);
            }
        }
    }
}

/// An arc of the routes passes the wire for the net, with this criticality.
pub open spec fn wire_is_used(
    costs: &RoutingCosts,
    routes: Seq<Arc<NetRoute>>,
    wire: WireId,
    net: NetId,
    criticality: int,
) -> bool {
    exists|r: int, i: int|
        #![trigger routes[r].arcs@[i]]
        0 <= r < routes.len() && 0 <= i < routes[r].arcs@.len() && routes[r].net == net
            && routes[r].arcs@[i].wires@.contains(wire) && arc_weight(
            costs,
            net,
            routes[r].arcs@[i],
        ) == criticality
}

/// An arc of the routes passes the PIP for the net, with this criticality.
pub open spec fn pip_is_used(
    costs: &RoutingCosts,
    routes: Seq<Arc<NetRoute>>,
    pip: PipId,
    net: NetId,
    criticality: int,
) -> bool {
    exists|r: int, i: int|
        #![trigger routes[r].arcs@[i]]
        0 <= r < routes.len() && 0 <= i < routes[r].arcs@.len() && routes[r].net == net
            && routes[r].arcs@[i].pips@.contains(pip) && arc_weight(
            costs,
            net,
            routes[r].arcs@[i],
        ) == criticality
}

/// The owners of a wire are the nets whose arcs pass it.
proof fn lemma_wire_routes(costs: &RoutingCosts, routes: Seq<Arc<NetRoute>>, wire: WireId)
    ensures
        forall|net: NetId, criticality: int| #[trigger]
            wire_is_used(costs, routes, wire, net, criticality) ==> covers(
                wire_projection(costs, routes, wire),
                net,
                criticality,
            ),
        all_from(
            wire_projection(costs, routes, wire),
            |net: NetId, criticality: u64|
                wire_is_used(costs, routes, wire, net, criticality as int),
        ),
    decreases routes.len(),
{
    let origin = |net: NetId, criticality: u64|
        wire_is_used(costs, routes, wire, net, criticality as int);
    if routes.len() > 0 {
        let rest = routes.drop_last();
        let last = routes.last();
        lemma_wire_routes(costs, rest, wire);
        let before = wire_projection(costs, rest, wire);
        assert(routes[routes.len() - 1] == last);
        assert forall|k: int| 0 <= k < before.len() implies origin(
            (#[trigger] before[k]).net,
            before[k].criticality,
        ) by {
            assert(wire_is_used(costs, rest, wire, before[k].net, before[k].criticality as int));
            let (r, i) = choose|r: int, i: int|
                #![trigger rest[r].arcs@[i]]
                0 <= r < rest.len() && 0 <= i < rest[r].arcs@.len() && rest[r].net
                    == before[k].net && rest[r].arcs@[i].wires@.contains(wire) && arc_weight(
                    costs,
                    before[k].net,
                    rest[r].arcs@[i],
                ) == before[k].criticality as int;
            assert(routes[r].arcs@[i] == rest[r].arcs@[i]);
        }
        assert forall|i: int|
            0 <= i < last.arcs@.len() && (#[trigger] last.arcs@[i]).wires@.contains(
                wire,
            ) implies origin(last.net, arc_weight(costs, last.net, last.arcs@[i]) as u64) by {
            let r = routes.len() - 1;
            assert(routes[r].arcs@[i] == last.arcs@[i]);
        }
        assert forall|net: NetId, criticality: int| #[trigger]
            wire_is_used(costs, routes, wire, net, criticality) implies covers(
            wire_projection(costs, routes, wire),
            net,
            criticality,
        ) by {
            let (r, i) = choose|r: int, i: int|
                #![trigger routes[r].arcs@[i]]
                0 <= r < routes.len() && 0 <= i < routes[r].arcs@.len() && routes[r].net == net
                    && routes[r].arcs@[i].wires@.contains(wire) && arc_weight(
                    costs,
                    net,
                    routes[r].arcs@[i],
                ) == criticality;
            lemma_wire_arcs(before, costs, last.net, last.arcs@, wire, net, criticality, origin);
            if r < routes.len() - 1 {
                assert(rest[r].arcs@[i] == routes[r].arcs@[i]);
                assert(wire_is_used(costs, rest, wire, net, criticality));
            } else {
                assert(last.arcs@[i].wires@.contains(wire));
            }
        }
        lemma_wire_arcs(before, costs, last.net, last.arcs@, wire, last.net, 0, origin);
    }
}

/// The owners of a PIP are the nets whose arcs pass it.
proof fn lemma_pip_routes(costs: &RoutingCosts, routes: Seq<Arc<NetRoute>>, pip: PipId)
    ensures
        forall|net: NetId, criticality: int| #[trigger]
            pip_is_used(costs, routes, pip, net, criticality) ==> covers(
                pip_projection(costs, routes, pip),
                net,
                criticality,
            ),
        all_from(
            pip_projection(costs, routes, pip),
            |net: NetId, criticality: u64|
                pip_is_used(costs, routes, pip, net, criticality as int),
        ),
    decreases routes.len(),
{
    let origin = |net: NetId, criticality: u64|
        pip_is_used(costs, routes, pip, net, criticality as int);
    if routes.len() > 0 {
        let rest = routes.drop_last();
        let last = routes.last();
        lemma_pip_routes(costs, rest, pip);
        let before = pip_projection(costs, rest, pip);
        assert(routes[routes.len() - 1] == last);
        assert forall|k: int| 0 <= k < before.len() implies origin(
            (#[trigger] before[k]).net,
            before[k].criticality,
        ) by {
            assert(pip_is_used(costs, rest, pip, before[k].net, before[k].criticality as int));
            let (r, i) = choose|r: int, i: int|
                #![trigger rest[r].arcs@[i]]
                0 <= r < rest.len() && 0 <= i < rest[r].arcs@.len() && rest[r].net
                    == before[k].net && rest[r].arcs@[i].pips@.contains(pip) && arc_weight(
                    costs,
                    before[k].net,
                    rest[r].arcs@[i],
                ) == before[k].criticality as int;
            assert(routes[r].arcs@[i] == rest[r].arcs@[i]);
        }
        assert forall|i: int|
            0 <= i < last.arcs@.len() && (#[trigger] last.arcs@[i]).pips@.contains(
                pip,
            ) implies origin(last.net, arc_weight(costs, last.net, last.arcs@[i]) as u64) by {
            let r = routes.len() - 1;
            assert(routes[r].arcs@[i] == last.arcs@[i]);
        }
        assert forall|net: NetId, criticality: int| #[trigger]
            pip_is_used(costs, routes, pip, net, criticality) implies covers(
            pip_projection(costs, routes, pip),
            net,
            criticality,
        ) by {
            let (r, i) = choose|r: int, i: int|
                #![trigger routes[r].arcs@[i]]
                0 <= r < routes.len() && 0 <= i < routes[r].arcs@.len() && routes[r].net == net
                    && routes[r].arcs@[i].pips@.contains(pip) && arc_weight(
                    costs,
                    net,
                    routes[r].arcs@[i],
                ) == criticality;
            lemma_pip_arcs(before, costs, last.net, last.arcs@, pip, net, criticality, origin);
            if r < routes.len() - 1 {
                assert(rest[r].arcs@[i] == routes[r].arcs@[i]);
                assert(pip_is_used(costs, rest, pip, net, criticality));
            } else {
                assert(last.arcs@[i].pips@.contains(pip));
            }
        }
        lemma_pip_arcs(before, costs, last.net, last.arcs@, pip, last.net, 0, origin);
    }
}

/// The projected owners of a wire are the nets whose arcs pass it, and each is as
/// critical as the most critical of those arcs by the caller's tables.
pub proof fn a_wire_is_owned_by_the_arcs_that_pass_it(
    projection: RouteCapacityProjection,
    costs: &RoutingCosts,
    routes: Seq<Arc<NetRoute>>,
    wire: WireId,
)
    requires
        projection.projects(costs, routes),
    ensures
        forall|net: NetId, criticality: int| #[trigger]
            wire_is_used(costs, routes, wire, net, criticality) ==> exists|k: int|
                0 <= k < owners_of(projection.wire_owners@, wire).len() && (
                #[trigger] owners_of(projection.wire_owners@, wire)[k]).net == net
                    && owners_of(projection.wire_owners@, wire)[k].criticality >= criticality,
        forall|k: int|
            0 <= k < owners_of(projection.wire_owners@, wire).len() ==> wire_is_used(
                costs,
                routes,
                wire,
                (#[trigger] owners_of(projection.wire_owners@, wire)[k]).net,
                owners_of(projection.wire_owners@, wire)[k].criticality as int,
            ),
{
    lemma_wire_routes(costs, routes, wire);
    let owners = owners_of(projection.wire_owners@, wire);
    assert(owners == wire_projection(costs, routes, wire));
    assert forall|net: NetId, criticality: int| #[trigger]
        wire_is_used(costs, routes, wire, net, criticality) implies exists|k: int|
        0 <= k < owners.len() && (#[trigger] owners[k]).net == net && owners[k].criticality
            >= criticality by {
        assert(covers(owners, net, criticality));
    }
}

/// The projected owners of a PIP are the nets whose arcs pass it, and each is as
/// critical as the most critical of those arcs by the caller's tables.
pub proof fn a_pip_is_owned_by_the_arcs_that_pass_it(
    projection: RouteCapacityProjection,
    costs: &RoutingCosts,
    routes: Seq<Arc<NetRoute>>,
    pip: PipId,
)
    requires
        projection.projects(costs, routes),
    ensures
        forall|net: NetId, criticality: int| #[trigger]
            pip_is_used(costs, routes, pip, net, criticality) ==> exists|k: int|
                0 <= k < owners_of(projection.pip_owners@, pip).len() && (
                #[trigger] owners_of(projection.pip_owners@, pip)[k]).net == net
                    && owners_of(projection.pip_owners@, pip)[k].criticality >= criticality,
        forall|k: int|
            0 <= k < owners_of(projection.pip_owners@, pip).len() ==> pip_is_used(
                costs,
                routes,
                pip,
                (#[trigger] owners_of(projection.pip_owners@, pip)[k]).net,
                owners_of(projection.pip_owners@, pip)[k].criticality as int,
            ),
{
    lemma_pip_routes(costs, routes, pip);
    let owners = owners_of(projection.pip_owners@, pip);
    assert(owners == pip_projection(costs, routes, pip));
    assert forall|net: NetId, criticality: int| #[trigger]
        pip_is_used(costs, routes, pip, net, criticality) implies exists|k: int|
        0 <= k < owners.len() && (#[trigger] owners[k]).net == net && owners[k].criticality
            >= criticality by {
        assert(covers(owners, net, criticality));
    }
}

/// Owners other than the moving net.
pub open spec fn rival_count(owners: Seq<ProjectedOwner>, moving: NetId) -> int
    decreases owners.len(),
{
    if owners.len() == 0 {
        0
    } else {
        rival_count(owners.drop_last(), moving) + if owners.last().net == moving {
            0int
        } else {
            1int
        }
    }
}

/// The rivals are the other owners, in order.
proof fn lemma_rivals(owners: Seq<ProjectedOwner>, moving: NetId)
    ensures
        rivals(owners, moving).len() == rival_count(owners, moving),
        crate::projection::in_order(rivals(owners, moving)),
        forall|k: int|
            0 <= k < rivals(owners, moving).len() ==> (#[trigger] rivals(owners, moving)[k]).net
                != moving && from_owner(owners, rivals(owners, moving)[k]),
    decreases owners.len(),
{
    if owners.len() > 0 {
        let rest = owners.drop_last();
        lemma_rivals(rest, moving);
        let list = rivals(rest, moving);
        let owner = owners.last();
        let whole = rivals(owners, moving);
        if owner.net != moving {
            let entry = VictimOrder { criticality: owner.criticality, net: owner.net };
            crate::projection::lemma_inserted_in_order(list, entry);
            assert forall|k: int| 0 <= k < whole.len() implies (#[trigger] whole[k]).net != moving
                && from_owner(owners, whole[k]) by {
                assert(whole.contains(whole[k]));
                if whole[k] == entry {
                    assert(owners[owners.len() - 1] == owner);
                } else {
                    let i = list.index_of(whole[k]);
                    assert(list[i] == whole[k]);
                    assert(from_owner(rest, list[i]));
                    let j = choose|j: int|
                        0 <= j < rest.len() && (#[trigger] rest[j]).net == list[i].net
                            && rest[j].criticality == list[i].criticality;
                    assert(owners[j] == rest[j]);
                }
            }
        } else {
            assert forall|k: int| 0 <= k < whole.len() implies (#[trigger] whole[k]).net != moving
                && from_owner(owners, whole[k]) by {
                assert(from_owner(rest, list[k]));
                let j = choose|j: int|
                    0 <= j < rest.len() && (#[trigger] rest[j]).net == list[k].net
                        && rest[j].criticality == list[k].criticality;
                assert(owners[j] == rest[j]);
            }
        }
    }
}

/// The entry is that of an owner.
pub open spec fn from_owner(owners: Seq<ProjectedOwner>, entry: VictimOrder) -> bool {
    exists|j: int|
        0 <= j < owners.len() && (#[trigger] owners[j]).net == entry.net && owners[j].criticality
            == entry.criticality
}

/// Where the moving net fits beside the others, nobody gives the resource up. Otherwise
/// as many do as are too many, the least critical first, and never the moving net.
pub proof fn the_least_critical_give_way(
    owners: Seq<ProjectedOwner>,
    moving: NetId,
    capacity: u16,
)
    requires
        owners.len() < usize::MAX,
    ensures
        rival_count(owners, moving) < capacity ==> victims(owners, moving, capacity).len() == 0,
        rival_count(owners, moving) >= capacity && capacity > 0 ==> victims(
            owners,
            moving,
            capacity,
        ).len() == rival_count(owners, moving) + 1 - capacity,
        capacity == 0 ==> victims(owners, moving, capacity).len() == rival_count(owners, moving),
        forall|k: int|
            0 <= k < victims(owners, moving, capacity).len() ==> (
            #[trigger] victims(owners, moving, capacity)[k]).net != moving && from_owner(
                owners,
                victims(owners, moving, capacity)[k],
            ),
        forall|k: int, j: int|
            #![trigger victims(owners, moving, capacity)[k], rivals(owners, moving)[j]]
            0 <= k < victims(owners, moving, capacity).len() && victims(
                owners,
                moving,
                capacity,
            ).len() <= j < rivals(owners, moving).len() ==> victims(
                owners,
                moving,
                capacity,
            )[k].criticality <= rivals(owners, moving)[j].criticality,
{
    lemma_rivals(owners, moving);
    lemma_count_range(owners, moving);
    let list = rivals(owners, moving);
    let chosen = victims(owners, moving, capacity);
    assert forall|k: int| 0 <= k < chosen.len() implies (#[trigger] chosen[k]).net != moving
        && from_owner(owners, chosen[k]) by {
        assert(chosen[k] == list[k]);
    }
    assert forall|k: int, j: int|
        #![trigger chosen[k], list[j]]
        0 <= k < chosen.len() && chosen.len() <= j < list.len() implies chosen[k].criticality
        <= list[j].criticality by {
        assert(chosen[k] == list[k]);
        assert(list[k].rank() <= list[j].rank());
    }
}

/// There are no more rivals than owners.
proof fn lemma_count_range(owners: Seq<ProjectedOwner>, moving: NetId)
    ensures
        0 <= rival_count(owners, moving) <= owners.len(),
    decreases owners.len(),
{
    if owners.len() > 0 {
        lemma_count_range(owners.drop_last(), moving);
    }
}

/// Every net that gives a resource up adds 150 ps and 10 ps for each point of its
/// criticality.
pub proof fn every_victim_adds_its_price(list: Seq<VictimOrder>, victim: VictimOrder)
    requires
        0 <= ripup_price(list),
        ripup_price(list) + 150 + 10 * victim.criticality <= u64::MAX,
    ensures
        ripup_price(list.push(victim)) == ripup_price(list) + 150 + 10 * victim.criticality,
        ripup_price(Seq::<VictimOrder>::empty()) == 0,
{
    assert(list.push(victim).drop_last() =~= list);
}

/// Releasing up to eight arcs costs 25 ps for each, and more than eight a million.
pub proof fn releasing_many_arcs_is_prohibitive(arcs: nat)
    ensures
        arcs <= 8 ==> release_price(arcs) == 25 * arcs,
        arcs > 8 ==> release_price(arcs) == 1_000_000,
{
}

/// A hop over resources that have room for the moving net beside their owners costs the
/// delay of its PIP alone.
pub proof fn a_hop_with_room_costs_its_delay(prices: ProjectedPrices<'_>, pip: PipId, to: WireId)
    requires
        prices.hop(pip, to) is Some,
        owners_of(prices.projection.wire_owners@, to).len() < usize::MAX,
        owners_of(prices.projection.pip_owners@, pip).len() < usize::MAX,
        rival_count(owners_of(prices.projection.wire_owners@, to), prices.net)
            < prices.device.wires@[to.0 as int].capacity,
        rival_count(owners_of(prices.projection.pip_owners@, pip), prices.net)
            < prices.device.pips@[pip.0 as int].capacity,
    ensures
        prices.hop(pip, to) == Some(prices.delays@[pip.0 as int] as int),
{
    the_least_critical_give_way(
        owners_of(prices.projection.wire_owners@, to),
        prices.net,
        prices.device.wires@[to.0 as int].capacity,
    );
    the_least_critical_give_way(
        owners_of(prices.projection.pip_owners@, pip),
        prices.net,
        prices.device.pips@[pip.0 as int].capacity,
    );
}

/// The wire and the PIP have room for the moving net beside their owners.
pub open spec fn hop_has_room(prices: ProjectedPrices<'_>, pip: PipId, to: WireId) -> bool {
    let wire_owners = owners_of(prices.projection.wire_owners@, to);
    let pip_owners = owners_of(prices.projection.pip_owners@, pip);
    &&& wire_owners.len() < usize::MAX
    &&& pip_owners.len() < usize::MAX
    &&& rival_count(wire_owners, prices.net) < prices.device.wires@[to.0 as int].capacity
    &&& rival_count(pip_owners, prices.net) < prices.device.pips@[pip.0 as int].capacity
}

/// Every hop of the walk has room for the moving net.
pub open spec fn has_room(
    prices: ProjectedPrices<'_>,
    wires: Seq<WireId>,
    pips: Seq<PipId>,
) -> bool {
    forall|i: int|
        0 <= i < pips.len() ==> hop_has_room(prices, #[trigger] pips[i], wires[i + 1])
}

/// A walk with room everywhere costs the sum of its delays.
proof fn lemma_roomy_walk(
    device: &Device,
    prices: ProjectedPrices<'_>,
    wires: Seq<WireId>,
    pips: Seq<PipId>,
)
    requires
        wires.len() == pips.len() + 1,
        has_room(prices, wires, pips),
        forall|i: int|
            0 <= i < pips.len() ==> takes_step(
                device,
                &prices,
                wires[i],
                #[trigger] pips[i],
                wires[i + 1],
            ),
    ensures
        walk_price(&prices, wires, pips) == delay_sum(prices.delays@, pips),
    decreases pips.len(),
{
    if pips.len() > 0 {
        let fewer = pips.drop_last();
        let shorter = wires.drop_last();
        assert forall|i: int| 0 <= i < fewer.len() implies takes_step(
            device,
            &prices,
            shorter[i],
            #[trigger] fewer[i],
            shorter[i + 1],
        ) by {
            assert(takes_step(device, &prices, wires[i], pips[i], wires[i + 1]));
        }
        assert forall|i: int| 0 <= i < fewer.len() implies hop_has_room(
            prices,
            #[trigger] fewer[i],
            shorter[i + 1],
        ) by {
            assert(hop_has_room(prices, pips[i], wires[i + 1]));
        }
        lemma_roomy_walk(device, prices, shorter, fewer);
        let last = pips.len() - 1;
        assert(takes_step(device, &prices, wires[last], pips[last], wires[last + 1]));
        assert(pips[last] == pips.last());
        assert(wires[last + 1] == wires.last());
        assert(hop_has_room(prices, pips[last], wires[last + 1]));
        a_hop_with_room_costs_its_delay(prices, pips.last(), wires.last());
    }
}

/// The projected cost of a connection is at most what the delays of any short walk from a
/// start add up to on which the net has room.
pub proof fn a_projected_cost_is_no_more_than_a_walk_with_room(
    device: &Device,
    delays: &[u32],
    starts: &OrderedSet<WireId>,
    goal: WireId,
    net: NetId,
    projection: &RouteCapacityProjection,
    result: Option<u64>,
    wires: Seq<WireId>,
    pips: Seq<PipId>,
)
    requires
        starts.ordered().len() > 0,
        is_projected_cost(device, delays, starts, goal, net, projection, result),
        ends_within(
            device,
            &prices_from(device, delays, starts, goal, net, projection),
            starts_inside(device, starts@, start_corridor(device, starts.ordered(), goal)),
            16,
            goal,
            wires,
            pips,
        ),
        has_room(prices_from(device, delays, starts, goal, net, projection), wires, pips),
        delay_sum(delays@, pips) <= u64::MAX,
    ensures
        result matches Some(price) && price <= delay_sum(delays@, pips),
{
    let prices = prices_from(device, delays, starts, goal, net, projection);
    lemma_roomy_walk(device, prices, wires, pips);
}

} // verus!
