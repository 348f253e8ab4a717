//! Release of some connections of a routed net.

use vstd::prelude::*;

use crate::device::UnifiedGraph;
use crate::model::{CellPinId, Connection, NetId, PipId, WireId};
use crate::net_routing::{arc_fits, consistent, driver_wire, holds_arc, hops_agree, takes_hop};
use crate::net_state::{
    arcs_kept, keeps, lemma_same_arc_fits, locked_arcs, unblocked_hop,
};
use crate::ordered::{lemma_counterpart, OrderedSet};
use crate::placement::Placement;
use crate::route::{arc_values, arcs_sorted, NetRoute, RouteArc};
use crate::routing_constraints::RoutingConstraints;
use crate::victims::sink_locked;

verus! {

/// Some connection of the net is to be routed.
pub open spec fn net_is_dirty(dirty: Set<Connection>, net: NetId) -> bool {
    exists|sink: CellPinId| #[trigger] dirty.contains(Connection { net, sink })
}

/// No connection is held in place by a constraint.
pub open spec fn all_movable(constraints: &RoutingConstraints, dirty: Set<Connection>) -> bool {
    forall|c: Connection| #[trigger]
        dirty.contains(c) ==> !sink_locked(constraints, c.net, Some(c.sink))
}

/// What the arcs hold that are not to be released.
pub open spec fn stayed_values(arcs: Seq<RouteArc>, dirty: Set<Connection>, net: NetId) -> Seq<
    (Option<CellPinId>, Seq<WireId>, Seq<PipId>),
>
    decreases arcs.len(),
{
    if arcs.len() == 0 {
        Seq::empty()
    } else {
        let rest = stayed_values(arcs.drop_last(), dirty, net);
        let last = arcs.last();
        if stays(last, dirty, net) {
            rest.push((last.sink, last.wires@, last.pips@))
        } else {
            rest
        }
    }
}

/// The result holds exactly the arcs that are not to be released.
#[verifier::opaque]
pub open spec fn preserves(previous: NetRoute, dirty: Set<Connection>, result: NetRoute) -> bool {
    &&& result.net == previous.net
    &&& result.is_fresh()
    &&& arcs_sorted(result.arcs@)
    &&& arc_values(result.arcs@).to_multiset() == stayed_values(
        previous.arcs@,
        dirty,
        previous.net,
    ).to_multiset()
    &&& forall|k: int|
        0 <= k < previous.arcs@.len() && stays(#[trigger] previous.arcs@[k], dirty, previous.net)
            ==> holds_arc(result.arcs@, previous.arcs@[k])
    &&& forall|i: int|
        0 <= i < result.arcs@.len() ==> stays(#[trigger] result.arcs@[i], dirty, previous.net)
            && holds_arc(previous.arcs@, result.arcs@[i])
}

/// Part of a route that stays while some connections are released.
pub(crate) fn preserve(
    previous: &NetRoute,
    dirty: &OrderedSet<Connection>,
    Ghost(graph): Ghost<UnifiedGraph<'_>>,
    Ghost(placement): Ghost<&Placement>,
    Ghost(constraints): Ghost<&RoutingConstraints>,
) -> (result: NetRoute)
    requires
        dirty.wf(),
        all_movable(constraints, dirty@),
        keeps(graph, placement, constraints, previous.net, *previous),
    ensures
        keeps(graph, placement, constraints, previous.net, result),
        arcs_kept(result.arcs@, previous.arcs@),
        preserves(*previous, dirty@, result),
        forall|s: CellPinId| #[trigger]
            result.reaches(s) <==> previous.reaches(s) && !dirty@.contains(
                Connection { net: previous.net, sink: s },
            ),
{
    let net = previous.net;
    let ghost locked = locked_arcs(constraints, net);
    let ghost driver = driver_wire(graph, placement, net)->0;
    let ghost all = previous.arcs@;
    let ghost mut from: Seq<int> = Seq::empty();
    let mut arcs: Vec<RouteArc> = Vec::new();
    let mut index: usize = 0;
    assert(arc_values(arcs@) =~= stayed_values(all.take(0), dirty@, net));
    while index < previous.arcs.len()
        invariant
            index <= previous.arcs@.len(),
            all == previous.arcs@,
            net == previous.net,
            dirty.wf(),
            arc_values(arcs@) == stayed_values(all.take(index as int), dirty@, net),
            from.len() == arcs@.len(),
            forall|i: int|
                0 <= i < arcs@.len() ==> {
                    &&& 0 <= #[trigger] from[i] < index
                    &&& arcs@[i].same(&all[from[i]])
                    &&& stays(all[from[i]], dirty@, net)
                },
            forall|i: int, j: int|
                0 <= i < j < from.len() ==> #[trigger] from[i] < #[trigger] from[j],
            forall|k: int|
                0 <= k < index && stays(#[trigger] all[k], dirty@, net) ==> from.contains(k),
        decreases previous.arcs@.len() - index,
    {
        let arc = &previous.arcs[index];
        let keep = match arc.sink {
            None => true,
            Some(sink) => !dirty.contains(Connection { net, sink }),
        };
        let ghost earlier = from;
        let ghost listed = arcs@;
        proof {
            assert(all.take(index + 1).drop_last() =~= all.take(index as int));
            assert(all.take(index + 1).last() == all[index as int]);
        }
        if keep {
            arcs.push(arc.copied());
            proof {
                assert(arc_values(arcs@) =~= arc_values(listed).push(
                    (arc.sink, arc.wires@, arc.pips@),
                ));
                from = from.push(index as int);
                assert(from[earlier.len() as int] == index);
            }
        }
        proof {
            assert forall|k: int| 0 <= k < index + 1 && stays(#[trigger] all[k], dirty@, net) implies from.contains(
                k,
            ) by {
                if k < index {
                    assert(earlier.contains(k));
                    let i = earlier.index_of(k);
                    assert(from[i] == k);
                } else {
                    assert(from[earlier.len() as int] == k);
                }
            }
        }
        index = index + 1;
    }
    let ghost built = arcs@;
    let result = NetRoute::new(net, arcs);
    proof {
        assert(all.take(index as int) =~= all);
        assert forall|i: int| 0 <= i < built.len() implies {
            &&& 0 <= #[trigger] from[i] < all.len()
            &&& built[i].same(&all[from[i]])
            &&& stays(all[from[i]], dirty@, net)
        } by {}
        lemma_preserved(
            graph,
            placement,
            constraints,
            *previous,
            dirty@,
            from,
            built,
            result,
        );
    }
    result
}

/// The arc is not to be released.
pub open spec fn stays(arc: RouteArc, dirty: Set<Connection>, net: NetId) -> bool {
    arc.sink matches Some(sink) ==> !dirty.contains(Connection { net, sink })
}

/// The arcs that stay make a route that keeps to its net.
proof fn lemma_preserved(
    graph: UnifiedGraph<'_>,
    placement: &Placement,
    constraints: &RoutingConstraints,
    previous: NetRoute,
    dirty: Set<Connection>,
    from: Seq<int>,
    built: Seq<RouteArc>,
    result: NetRoute,
)
    requires
        all_movable(constraints, dirty),
        keeps(graph, placement, constraints, previous.net, previous),
        from.len() == built.len(),
        forall|i: int|
            0 <= i < built.len() ==> {
                &&& 0 <= #[trigger] from[i] < previous.arcs@.len()
                &&& built[i].same(&previous.arcs@[from[i]])
                &&& stays(previous.arcs@[from[i]], dirty, previous.net)
            },
        forall|i: int, j: int|
            0 <= i < j < from.len() ==> #[trigger] from[i] < #[trigger] from[j],
        forall|k: int|
            0 <= k < previous.arcs@.len() && stays(
                #[trigger] previous.arcs@[k],
                dirty,
                previous.net,
            ) ==> from.contains(k),
        result.net == previous.net,
        result.is_fresh(),
        arcs_sorted(result.arcs@),
        arc_values(result.arcs@).to_multiset() == stayed_values(
            previous.arcs@,
            dirty,
            previous.net,
        ).to_multiset(),
        result.arcs@.to_multiset() == built.to_multiset(),
    ensures
        keeps(graph, placement, constraints, previous.net, result),
        arcs_kept(result.arcs@, previous.arcs@),
        preserves(previous, dirty, result),
        forall|s: CellPinId| #[trigger]
            result.reaches(s) <==> previous.reaches(s) && !dirty.contains(
                Connection { net: previous.net, sink: s },
            ),
{
    reveal(preserves);
    let net = previous.net;
    let all = previous.arcs@;
    let arcs = result.arcs@;
    let locked = locked_arcs(constraints, net);
    let driver = driver_wire(graph, placement, net)->0;
    assert forall|i: int| 0 <= i < arcs.len() implies arc_fits(
        graph,
        placement,
        net,
        driver,
        #[trigger] arcs[i],
    ) by {
        let k = lemma_counterpart(arcs, built, i);
        assert(arc_fits(graph, placement, net, driver, all[from[k]]));
        lemma_same_arc_fits(graph, placement, net, driver, all[from[k]], built[k]);
    }
    assert forall|a: int, b: int|
        0 <= a < b < arcs.len() && (#[trigger] arcs[a]).sink is Some implies arcs[a].sink != (
    #[trigger] arcs[b]).sink by {
        if arcs[a].sink == arcs[b].sink {
            let x = lemma_counterpart(arcs, built, a);
            let y = lemma_counterpart(arcs, built, b);
            if x == y {
                crate::ordered::lemma_twice_counted(arcs, a, b);
                let (i, j) = crate::ordered::lemma_counted_twice(built, built[x]);
                assert(from[i] < from[j]);
                assert(all[from[i]].sink != all[from[j]].sink);
            } else if x < y {
                assert(from[x] < from[y]);
                assert(all[from[x]].sink != all[from[y]].sink);
            } else {
                assert(from[y] < from[x]);
                assert(all[from[y]].sink != all[from[x]].sink);
            }
        }
    }
    assert forall|f: int| 0 <= f < locked.len() implies holds_arc(arcs, #[trigger] locked[f]) by {
        assert(holds_arc(all, locked[f]));
        let k = choose|k: int| 0 <= k < all.len() && (#[trigger] all[k]).same(&locked[f]);
        if let Some(sink) = locked[f].sink {
            assert(constraints.routes@[net].arcs@[f].sink == Some(sink));
            assert(sink_locked(constraints, net, Some(sink)));
            if dirty.contains(Connection { net, sink }) {
                let c = Connection { net, sink };
                assert(!sink_locked(constraints, c.net, Some(c.sink)));
            }
        }
        assert(stays(all[k], dirty, net));
        assert(from.contains(k));
        let i = from.index_of(k);
        assert(from[i] == k);
        let j = lemma_counterpart(built, arcs, i);
        assert(arcs[j].same(&locked[f]));
    }
    assert forall|i: int| 0 <= i < arcs.len() && (#[trigger] arcs[i]).sink is None implies holds_arc(
        locked,
        arcs[i],
    ) by {
        let k = lemma_counterpart(arcs, built, i);
        assert(built[k].same(&all[from[k]]));
        assert(holds_arc(locked, all[from[k]]));
        let f = choose|f: int| 0 <= f < locked.len() && (#[trigger] locked[f]).same(&all[from[k]]);
        assert(locked[f].same(&arcs[i]));
    }
    assert forall|i: int| 0 <= i < arcs.len() implies holds_arc(all, #[trigger] arcs[i]) by {
        let k = lemma_counterpart(arcs, built, i);
        assert(built[k].same(&all[from[k]]));
        assert(all[from[k]].same(&arcs[i]));
    }
    assert forall|i: int, k: int|
        #![trigger arcs[i].pips@[k]]
        0 <= i < arcs.len() && 0 <= k < arcs[i].pips@.len() implies takes_hop(
        locked,
        arcs[i].wires@[k],
        arcs[i].pips@[k],
        arcs[i].wires@[k + 1],
    ) || unblocked_hop(
        graph.device,
        constraints,
        arcs[i].wires@[k],
        arcs[i].pips@[k],
        arcs[i].wires@[k + 1],
    ) by {
        let x = lemma_counterpart(arcs, built, i);
        assert(built[x].same(&all[from[x]]));
        assert(all[from[x]].pips@[k] == arcs[i].pips@[k]);
    }
    if consistent(locked) {
        assert forall|a: int, i: int, b: int, j: int| #[trigger] hops_agree(arcs, a, i, b, j) by {
            if 0 <= a < arcs.len() && 0 <= b < arcs.len() {
                let x = lemma_counterpart(arcs, built, a);
                let y = lemma_counterpart(arcs, built, b);
                assert(built[x].same(&all[from[x]]));
                assert(built[y].same(&all[from[y]]));
                assert(hops_agree(all, from[x], i, from[y], j));
            }
        }
    }
    assert forall|k: int| 0 <= k < all.len() && stays(#[trigger] all[k], dirty, net) implies holds_arc(
        arcs,
        all[k],
    ) by {
        assert(from.contains(k));
        let i = from.index_of(k);
        assert(from[i] == k);
        let j = lemma_counterpart(built, arcs, i);
        assert(arcs[j].same(&all[k]));
    }
    assert forall|i: int| 0 <= i < arcs.len() implies stays(#[trigger] arcs[i], dirty, net) by {
        let k = lemma_counterpart(arcs, built, i);
        assert(built[k].same(&all[from[k]]));
    }
    assert forall|s: CellPinId| #[trigger] result.reaches(s) <==> previous.reaches(s)
        && !dirty.contains(Connection { net, sink: s }) by {
        if result.reaches(s) {
            let i = choose|i: int| 0 <= i < arcs.len() && (#[trigger] arcs[i]).sink == Some(s);
            let k = lemma_counterpart(arcs, built, i);
            assert(built[k].same(&all[from[k]]));
            assert(all[from[k]].sink == Some(s));
        }
        if previous.reaches(s) && !dirty.contains(Connection { net, sink: s }) {
            let k = choose|k: int| 0 <= k < all.len() && (#[trigger] all[k]).sink == Some(s);
            assert(stays(all[k], dirty, net));
            let i = from.index_of(k);
            assert(from[i] == k);
            let j = lemma_counterpart(built, arcs, i);
            assert(arcs[j].sink == Some(s));
        }
    }
}

} // verus!
