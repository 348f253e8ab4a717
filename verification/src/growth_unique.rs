//! A net grows in one way.

use vstd::prelude::*;

use crate::connection::setup_answer;
use crate::device::Device;
use crate::error::PnrError;
use crate::growth_model::GrowthPoint;
use crate::model::{CellPinId, NetId, PipId, WireId};
use crate::net_growth::{is_choice, is_recovery, is_retry, is_worth_trying, NetRouter};
use crate::net_router::{path_score, sink_order, AlternateSource, SinkOrder};
use crate::ordered::{lemma_mapped_multiset, lemma_sorted_unique, OrderedKey, OrderedSet};
use crate::placement::pin_wire;
use crate::route::{arc_values, the_order_of_arcs_does_not_matter, NetRoute, RouteArc};
use crate::route_shape::is_tree;
use crate::routing_costs::sink_minimum;
use crate::search::{MetResources, RouteQuery, RouteSearch};
use crate::search_unique::{
    lemma_hold_unique, lemma_same_members, lemma_setup_unique, same_members, same_path,
};
use crate::tree::{ParentHop, RouteTree};

verus! {

/// Slices of the same entries are equal.
pub proof fn lemma_same_slices<T>(a: &[T], b: &[T])
    requires
        a@ == b@,
    ensures
        a == b,
{
    broadcast use vstd::slice::group_slice_axioms;

    assert(a.len() == b.len());
    assert forall|i: int| 0 <= i < a.len() implies a[i] == b[i] by {
        assert(a@[i] == b@[i]);
    }
    assert(a =~= b);
}

/// A second search from one wire gives one answer.
proof fn lemma_retry_unique(
    a: RouteSearch,
    b: RouteSearch,
    query: RouteQuery<'_>,
    tree: &OrderedSet<WireId>,
    others: &OrderedSet<WireId>,
    start: WireId,
    first: (Vec<WireId>, Vec<PipId>),
    second: (Vec<WireId>, Vec<PipId>),
    x: Option<(Vec<WireId>, Vec<PipId>)>,
    y: Option<(Vec<WireId>, Vec<PipId>)>,
    met: MetResources,
    also: MetResources,
)
    requires
        a.same_estimates(&b),
        same_members(tree, others),
        first.0@ == second.0@,
        first.1@ == second.1@,
        is_retry(a, query, tree, start, first, x, met),
        is_retry(b, query, others, start, second, y, also),
    ensures
        same_path(x, y),
{
    let (now, starts, answer) = choose|
        now: RouteSearch,
        starts: OrderedSet<WireId>,
        answer: Option<(Vec<WireId>, Vec<PipId>)>,
    |
        {
            &&& now.same_estimates(&a)
            &&& starts.wf()
            &&& starts@ == set![start]
            &&& #[trigger] setup_answer(now, query, &starts, Some(tree), answer, met)
            &&& x == if answer is Some && path_score(
                query,
                (answer->0).0@,
                (answer->0).1@,
                (answer->0).1@.len() as int,
            ) < path_score(query, first.0@, first.1@, first.1@.len() as int) {
                answer
            } else {
                None
            }
        };
    let (then, begins, reply) = choose|
        then: RouteSearch,
        begins: OrderedSet<WireId>,
        reply: Option<(Vec<WireId>, Vec<PipId>)>,
    |
        {
            &&& then.same_estimates(&b)
            &&& begins.wf()
            &&& begins@ == set![start]
            &&& #[trigger] setup_answer(then, query, &begins, Some(others), reply, also)
            &&& y == if reply is Some && path_score(
                query,
                (reply->0).0@,
                (reply->0).1@,
                (reply->0).1@.len() as int,
            ) < path_score(query, second.0@, second.1@, second.1@.len() as int) {
                reply
            } else {
                None
            }
        };
    lemma_same_members(&starts, &begins);
    lemma_setup_unique(
        now,
        then,
        query,
        &starts,
        &begins,
        Some(tree),
        Some(others),
        answer,
        reply,
        met,
        also,
    );
}

/// What makes a start worth trying for one path does so for the same path.
proof fn lemma_same_worth(
    a: RouteSearch,
    b: RouteSearch,
    query: RouteQuery<'_>,
    tree: &OrderedSet<WireId>,
    others: &OrderedSet<WireId>,
    delay_per_tile_ps: u64,
    first: (Vec<WireId>, Vec<PipId>),
    second: (Vec<WireId>, Vec<PipId>),
    start: AlternateSource,
)
    requires
        a.same_estimates(&b),
        same_members(tree, others),
        first.0@ == second.0@,
        first.1@ == second.1@,
        is_worth_trying(a, query, tree, delay_per_tile_ps, first, start),
    ensures
        is_worth_trying(b, query, others, delay_per_tile_ps, second, start),
{
    let incumbent = first.0@.last();
    assert forall|w: WireId| #[trigger] others@.contains(w) && w != incumbent implies start.rank()
        <= crate::net_router::alternate_source(b, query, delay_per_tile_ps, w).rank() by {
        assert(tree@.contains(w));
        assert(start.rank() <= crate::net_router::alternate_source(
            a,
            query,
            delay_per_tile_ps,
            w,
        ).rank());
    }
}

/// Recovery by another start gives one answer.
proof fn lemma_recovery_unique(
    a: RouteSearch,
    b: RouteSearch,
    query: RouteQuery<'_>,
    tree: &OrderedSet<WireId>,
    others: &OrderedSet<WireId>,
    delay_per_tile_ps: u64,
    first: (Vec<WireId>, Vec<PipId>),
    second: (Vec<WireId>, Vec<PipId>),
    x: Option<(Vec<WireId>, Vec<PipId>)>,
    y: Option<(Vec<WireId>, Vec<PipId>)>,
    met: MetResources,
    also: MetResources,
)
    requires
        a.same_estimates(&b),
        same_members(tree, others),
        first.0@ == second.0@,
        first.1@ == second.1@,
        is_recovery(a, query, tree, delay_per_tile_ps, first, x, met),
        is_recovery(b, query, others, delay_per_tile_ps, second, y, also),
    ensures
        same_path(x, y),
{
    let (now, other) = choose|now: RouteSearch, other: Option<AlternateSource>|
        {
            &&& now.same_estimates(&a)
            &&& #[trigger] is_choice(now, query, tree, delay_per_tile_ps, first, other)
            &&& match other {
                Some(start) => is_retry(a, query, tree, start.wire, first, x, met),
                None => x is None,
            }
        };
    let (then, also_other) = choose|then: RouteSearch, other: Option<AlternateSource>|
        {
            &&& then.same_estimates(&b)
            &&& #[trigger] is_choice(then, query, others, delay_per_tile_ps, second, other)
            &&& match other {
                Some(start) => is_retry(b, query, others, start.wire, second, y, also),
                None => y is None,
            }
        };
    if let Some(start) = other {
        lemma_same_worth(
            now,
            then,
            query,
            tree,
            others,
            delay_per_tile_ps,
            first,
            second,
            start,
        );
        assert(also_other is Some);
        let begin = also_other->0;
        assert(start.rank() <= begin.rank()) by {
            assert(others@.contains(begin.wire));
            assert(tree@.contains(begin.wire));
        }
        assert(begin.rank() <= start.rank()) by {
            assert(others@.contains(start.wire));
        }
        AlternateSource::rank_is_injective(start, begin);
        lemma_retry_unique(
            a,
            b,
            query,
            tree,
            others,
            start.wire,
            first,
            second,
            x,
            y,
            met,
            also,
        );
    } else if let Some(begin) = also_other {
        lemma_same_worth(
            then,
            now,
            query,
            others,
            tree,
            delay_per_tile_ps,
            second,
            first,
            begin,
        );
    }
}

/// Routers that differ at most in where they keep the wires of the pins.
pub open spec fn are_twins(a: NetRouter<'_>, b: NetRouter<'_>) -> bool {
    &&& a.graph == b.graph
    &&& a.placement == b.placement
    &&& a.wire_congestion == b.wire_congestion
    &&& a.pip_congestion == b.pip_congestion
    &&& a.blocked_pip_words == b.blocked_pip_words
    &&& a.hard_occupancy == b.hard_occupancy
    &&& a.allow_alternate_source == b.allow_alternate_source
    &&& a.costs == b.costs
    &&& a.metadata == b.metadata
}

/// The trees, the arrivals and the arcs are the same.
pub open spec fn alike(a: GrowthPoint, b: GrowthPoint) -> bool {
    &&& a.tree.driver == b.tree.driver
    &&& same_members(&a.tree.wires, &b.tree.wires)
    &&& a.tree.parent@ == b.tree.parent@
    &&& a.arrivals == b.arrivals
    &&& same_arcs(a.arcs, b.arcs)
}

/// The arcs are the same, one by one.
pub open spec fn same_arcs(a: Seq<RouteArc>, b: Seq<RouteArc>) -> bool {
    &&& a.len() == b.len()
    &&& forall|i: int| 0 <= i < a.len() ==> (#[trigger] a[i]).same(&b[i])
}

/// One path of a tree leads to a wire.
proof fn lemma_follow_unique(
    tree: RouteTree,
    other: RouteTree,
    device: &Device,
    a: RouteArc,
    b: RouteArc,
    count: int,
)
    requires
        tree.driver == other.driver,
        tree.parent@ == other.parent@,
        a.is_path(device, tree.driver),
        b.is_path(device, tree.driver),
        tree.follows(a.wires@, a.pips@),
        other.follows(b.wires@, b.pips@),
        a.wires@.last() == b.wires@.last(),
        0 <= count < a.wires@.len(),
        count < b.wires@.len(),
    ensures
        forall|i: int|
            0 <= i <= count ==> a.wires@[a.wires@.len() - 1 - i] == #[trigger] b.wires@[
                b.wires@.len() - 1 - i
            ],
        forall|i: int|
            0 <= i < count ==> a.pips@[a.pips@.len() - 1 - i] == #[trigger] b.pips@[
                b.pips@.len() - 1 - i
            ],
    decreases count,
{
    if count > 0 {
        lemma_follow_unique(tree, other, device, a, b, count - 1);
        let i = a.pips@.len() - count;
        let j = b.pips@.len() - count;
        assert(a.wires@[a.wires@.len() - 1 - (count - 1)] == b.wires@[
            b.wires@.len() - 1 - (count - 1)
        ]);
        assert(a.pips@[i] == a.pips@[i]);
        assert(b.pips@[j] == b.pips@[j]);
        assert(tree.parent@[a.wires@[i + 1]] == (ParentHop {
            wire: a.wires@[i],
            pip: a.pips@[i],
        }));
        assert(other.parent@[b.wires@[j + 1]] == (ParentHop {
            wire: b.wires@[j],
            pip: b.pips@[j],
        }));
        assert forall|k: int| 0 <= k <= count implies a.wires@[a.wires@.len() - 1 - k]
            == #[trigger] b.wires@[b.wires@.len() - 1 - k] by {
            if k < count {
                assert(b.wires@[b.wires@.len() - 1 - k] == a.wires@[a.wires@.len() - 1 - k]);
            }
        }
        assert forall|k: int| 0 <= k < count implies a.pips@[a.pips@.len() - 1 - k]
            == #[trigger] b.pips@[b.pips@.len() - 1 - k] by {
            if k < count - 1 {
                assert(b.pips@[b.pips@.len() - 1 - k] == a.pips@[a.pips@.len() - 1 - k]);
            }
        }
    }
}

/// One path of a tree leads to a wire.
proof fn lemma_path_unique(
    tree: RouteTree,
    other: RouteTree,
    device: &Device,
    a: RouteArc,
    b: RouteArc,
)
    requires
        tree.driver == other.driver,
        tree.parent@ == other.parent@,
        a.is_path(device, tree.driver),
        b.is_path(device, tree.driver),
        tree.follows(a.wires@, a.pips@),
        other.follows(b.wires@, b.pips@),
        a.wires@.last() == b.wires@.last(),
        a.wires@.len() <= b.wires@.len(),
    ensures
        a.wires@ == b.wires@,
        a.pips@ == b.pips@,
{
    let count = a.wires@.len() - 1;
    lemma_follow_unique(tree, other, device, a, b, count);
    let j = b.wires@.len() - 1 - count;
    assert(b.wires@[j] == a.wires@[0]);
    assert(b.wires@[0] == tree.driver);
    assert(j == 0);
    assert forall|k: int| 0 <= k < a.wires@.len() implies a.wires@[k] == b.wires@[k] by {
        let i = count - k;
        assert(b.wires@[b.wires@.len() - 1 - i] == a.wires@[a.wires@.len() - 1 - i]);
    }
    assert forall|k: int| 0 <= k < a.pips@.len() implies a.pips@[k] == b.pips@[k] by {
        let i = count - 1 - k;
        assert(b.pips@[b.pips@.len() - 1 - i] == a.pips@[a.pips@.len() - 1 - i]);
    }
    assert(a.wires@ =~= b.wires@);
    assert(a.pips@ =~= b.pips@);
}

/// Twins note the same arrivals of a path.
proof fn lemma_same_path_arrivals(
    a: NetRouter<'_>,
    b: NetRouter<'_>,
    arrivals: Seq<u64>,
    wires: Seq<WireId>,
    pips: Seq<PipId>,
    minimum_arrival_ps: u64,
    index: int,
)
    requires
        are_twins(a, b),
    ensures
        a.path_arrivals(arrivals, wires, pips, minimum_arrival_ps, index) == b.path_arrivals(
            arrivals,
            wires,
            pips,
            minimum_arrival_ps,
            index,
        ),
    decreases pips.len() - index,
{
    if index < pips.len() {
        lemma_same_path_arrivals(a, b, arrivals, wires, pips, minimum_arrival_ps, index + 1);
    }
}

/// Twins note the same arrivals of the same arc.
proof fn lemma_same_arc_arrivals(
    a: NetRouter<'_>,
    b: NetRouter<'_>,
    arrivals: Seq<u64>,
    arc: RouteArc,
    other: RouteArc,
    steps: int,
)
    requires
        are_twins(a, b),
        arc.same(&other),
    ensures
        a.arc_arrivals(arrivals, arc, steps) == b.arc_arrivals(arrivals, other, steps),
    decreases steps,
{
    if steps > 0 {
        lemma_same_arc_arrivals(a, b, arrivals, arc, other, steps - 1);
    }
}

/// The same arc lays the same tree.
proof fn lemma_same_laid(
    tree: (Set<WireId>, Map<WireId, ParentHop>),
    arc: RouteArc,
    other: RouteArc,
    steps: int,
)
    requires
        arc.same(&other),
    ensures
        crate::growth_model::laid(tree, arc, steps) == crate::growth_model::laid(
            tree,
            other,
            steps,
        ),
    decreases steps,
{
    if steps > 0 {
        lemma_same_laid(tree, arc, other, steps - 1);
    }
}

/// The same fixed arcs make the same tree and the same arrivals.
proof fn lemma_same_fixed(
    a: NetRouter<'_>,
    b: NetRouter<'_>,
    driver: WireId,
    arcs: Seq<RouteArc>,
    others: Seq<RouteArc>,
    count: int,
)
    requires
        are_twins(a, b),
        same_arcs(arcs, others),
        count <= arcs.len(),
    ensures
        a.fixed_arrivals(driver, arcs, count) == b.fixed_arrivals(driver, others, count),
        crate::growth_model::fixed_tree(driver, arcs, count) == crate::growth_model::fixed_tree(
            driver,
            others,
            count,
        ),
    decreases count,
{
    if count > 0 {
        lemma_same_fixed(a, b, driver, arcs, others, count - 1);
        assert(arcs[count - 1].same(&others[count - 1]));
        let steps = arcs[count - 1].pips@.len() as int;
        lemma_same_arc_arrivals(
            a,
            b,
            a.fixed_arrivals(driver, arcs, count - 1),
            arcs[count - 1],
            others[count - 1],
            steps,
        );
        lemma_same_laid(
            crate::growth_model::fixed_tree(driver, arcs, count - 1),
            arcs[count - 1],
            others[count - 1],
            steps,
        );
    }
}

/// One growth begins with the fixed arcs.
proof fn lemma_planted_unique(
    a: NetRouter<'_>,
    b: NetRouter<'_>,
    driver: WireId,
    fixed: Seq<RouteArc>,
    others: Seq<RouteArc>,
    x: GrowthPoint,
    y: GrowthPoint,
)
    requires
        are_twins(a, b),
        same_arcs(fixed, others),
        a.is_planted(driver, fixed, x),
        b.is_planted(driver, others, y),
    ensures
        alike(x, y),
{
    lemma_same_fixed(a, b, driver, fixed, others, fixed.len() as int);
    assert((x.tree.wires@, x.tree.parent@).0 == (y.tree.wires@, y.tree.parent@).0);
    assert((x.tree.wires@, x.tree.parent@).1 == (y.tree.wires@, y.tree.parent@).1);
    lemma_same_members(&x.tree.wires, &y.tree.wires);
    assert forall|i: int| 0 <= i < x.arcs.len() implies (#[trigger] x.arcs[i]).same(&y.arcs[i]) by {
        assert(x.arcs[i].same(&fixed[i]));
        assert(y.arcs[i].same(&others[i]));
        assert(fixed[i].same(&others[i]));
    }
}

/// Twins ask one query.
proof fn lemma_same_query(
    a: NetRouter<'_>,
    b: NetRouter<'_>,
    net: NetId,
    sink: CellPinId,
    goal: WireId,
    arrivals: Seq<u64>,
    x: RouteQuery<'_>,
    y: RouteQuery<'_>,
)
    requires
        are_twins(a, b),
        a.asks(x, net, sink, goal, arrivals),
        b.asks(y, net, sink, goal, arrivals),
    ensures
        x == y,
{
    lemma_same_slices(x.tree_delays_ps, y.tree_delays_ps);
}

/// The search for one connection has one answer.
proof fn lemma_sink_unique(
    a: NetRouter<'_>,
    b: NetRouter<'_>,
    search: RouteSearch,
    other: RouteSearch,
    query: RouteQuery<'_>,
    tree: &OrderedSet<WireId>,
    others: &OrderedSet<WireId>,
    minimum_arrival_ps: u64,
    x: Option<(Vec<WireId>, Vec<PipId>)>,
    y: Option<(Vec<WireId>, Vec<PipId>)>,
    met: MetResources,
    also: MetResources,
)
    requires
        are_twins(a, b),
        search.same_estimates(&other),
        same_members(tree, others),
        a.sink_answer(search, query, tree, minimum_arrival_ps, x, met),
        b.sink_answer(other, query, others, minimum_arrival_ps, y, also),
    ensures
        same_path(x, y),
{
    if minimum_arrival_ps != 0 {
        lemma_hold_unique(query, tree, others, minimum_arrival_ps, x, y, met, also);
    } else {
        let first = choose|first: Option<(Vec<WireId>, Vec<PipId>)>|
            {
                &&& #[trigger] setup_answer(search, query, tree, None, first, met)
                &&& match (first, a.recovery_delay(query)) {
                    (Some(path), Some(delay_per_tile_ps)) => a.recovers(
                        search,
                        query,
                        tree,
                        delay_per_tile_ps,
                        path,
                        x,
                        met,
                    ),
                    _ => x == first,
                }
            };
        let second = choose|second: Option<(Vec<WireId>, Vec<PipId>)>|
            {
                &&& #[trigger] setup_answer(other, query, others, None, second, also)
                &&& match (second, b.recovery_delay(query)) {
                    (Some(path), Some(delay_per_tile_ps)) => b.recovers(
                        other,
                        query,
                        others,
                        delay_per_tile_ps,
                        path,
                        y,
                        also,
                    ),
                    _ => y == second,
                }
            };
        lemma_setup_unique(
            search,
            other,
            query,
            tree,
            others,
            None,
            None,
            first,
            second,
            met,
            also,
        );
        if first is Some && a.recovery_delay(query) is Some {
            let delay_per_tile_ps = a.recovery_delay(query)->0;
            let p = first->0;
            let q = second->0;
            let u = choose|u: Option<(Vec<WireId>, Vec<PipId>)>|
                #[trigger] is_recovery(search, query, tree, delay_per_tile_ps, p, u, met) && x
                    == if u is Some {
                    u
                } else {
                    Some(p)
                };
            let v = choose|v: Option<(Vec<WireId>, Vec<PipId>)>|
                #[trigger] is_recovery(other, query, others, delay_per_tile_ps, q, v, also) && y
                    == if v is Some {
                    v
                } else {
                    Some(q)
                };
            lemma_recovery_unique(
                search,
                other,
                query,
                tree,
                others,
                delay_per_tile_ps,
                p,
                q,
                u,
                v,
                met,
                also,
            );
        }
    }
}

/// Some arc reaches the sink.
spec fn is_reached(arcs: Seq<RouteArc>, sink: CellPinId) -> bool {
    exists|i: int| 0 <= i < arcs.len() && (#[trigger] arcs[i]).sink == Some(sink)
}

/// The same arcs reach the same sinks.
proof fn lemma_same_reach(a: Seq<RouteArc>, b: Seq<RouteArc>, sink: CellPinId)
    requires
        same_arcs(a, b),
        is_reached(a, sink),
    ensures
        is_reached(b, sink),
{
    let i = choose|i: int| 0 <= i < a.len() && (#[trigger] a[i]).sink == Some(sink);
    assert(a[i].same(&b[i]));
    assert(b[i].sink == Some(sink));
}

/// One more arc of the same tree is the same arc.
proof fn lemma_arc_unique(
    a: NetRouter<'_>,
    b: NetRouter<'_>,
    tree: RouteTree,
    other: RouteTree,
    before: (Seq<RouteArc>, Seq<RouteArc>),
    after: (Seq<RouteArc>, Seq<RouteArc>),
    sink: CellPinId,
    goal: WireId,
)
    requires
        are_twins(a, b),
        tree.driver == other.driver,
        tree.parent@ == other.parent@,
        same_arcs(before.0, before.1),
        a.adds_arc(tree, before.0, after.0, sink, goal),
        b.adds_arc(other, before.1, after.1, sink, goal),
    ensures
        same_arcs(after.0, after.1),
{
    let x = after.0.last();
    let y = after.1.last();
    if x.wires@.len() <= y.wires@.len() {
        lemma_path_unique(tree, other, a.graph.device, x, y);
    } else {
        lemma_path_unique(other, tree, a.graph.device, y, x);
    }
    let count = before.0.len() as int;
    assert forall|i: int| 0 <= i < after.0.len() implies (#[trigger] after.0[i]).same(
        &after.1[i],
    ) by {
        if i < count {
            assert(after.0.take(count)[i] == before.0[i]);
            assert(after.1.take(count)[i] == before.1[i]);
            assert(before.0[i].same(&before.1[i]));
        }
    }
}

/// A sink joins in one way.
proof fn lemma_join_unique(
    a: NetRouter<'_>,
    b: NetRouter<'_>,
    net: NetId,
    sink: CellPinId,
    search: RouteSearch,
    other: RouteSearch,
    before: (GrowthPoint, GrowthPoint),
    after: (GrowthPoint, GrowthPoint),
)
    requires
        are_twins(a, b),
        search.same_estimates(&other),
        alike(before.0, before.1),
        a.joins_sink(net, sink, search, before.0, after.0),
        b.joins_sink(net, sink, other, before.1, after.1),
    ensures
        alike(after.0, after.1),
{
    let goal = pin_wire(a.graph, a.placement, sink)->0;
    let minimum = sink_minimum(a.costs, net, sink);
    if is_reached(before.0.arcs, sink) {
        lemma_same_reach(before.0.arcs, before.1.arcs, sink);
    } else {
        assert(!is_reached(before.1.arcs, sink)) by {
            if is_reached(before.1.arcs, sink) {
                assert(same_arcs(before.1.arcs, before.0.arcs)) by {
                    assert forall|i: int| 0 <= i < before.1.arcs.len() implies (
                    #[trigger] before.1.arcs[i]).same(&before.0.arcs[i]) by {
                        assert(before.0.arcs[i].same(&before.1.arcs[i]));
                    }
                }
                lemma_same_reach(before.1.arcs, before.0.arcs, sink);
            }
        }
        if before.0.tree.wires@.contains(goal) {
            lemma_arc_unique(
                a,
                b,
                before.0.tree,
                before.1.tree,
                (before.0.arcs, before.1.arcs),
                (after.0.arcs, after.1.arcs),
                sink,
                goal,
            );
        } else {
            let p = choose|path: (Vec<WireId>, Vec<PipId>)|
                {
                    &&& #[trigger] a.finds_path(
                        net,
                        sink,
                        goal,
                        search,
                        before.0,
                        path,
                        after.0.met,
                    )
                    &&& before.0.met.within(after.0.met)
                    &&& a.hangs_path(before.0, path.0@, path.1@, minimum, after.0)
                    &&& a.adds_arc(after.0.tree, before.0.arcs, after.0.arcs, sink, goal)
                };
            let q = choose|path: (Vec<WireId>, Vec<PipId>)|
                {
                    &&& #[trigger] b.finds_path(
                        net,
                        sink,
                        goal,
                        other,
                        before.1,
                        path,
                        after.1.met,
                    )
                    &&& before.1.met.within(after.1.met)
                    &&& b.hangs_path(before.1, path.0@, path.1@, minimum, after.1)
                    &&& b.adds_arc(after.1.tree, before.1.arcs, after.1.arcs, sink, goal)
                };
            lemma_found_unique(
                a,
                b,
                net,
                sink,
                goal,
                search,
                other,
                before,
                Some(p),
                Some(q),
                after.0.met,
                after.1.met,
            );
            lemma_same_path_arrivals(a, b, before.0.arrivals, p.0@, p.1@, minimum, 0);
            lemma_same_members(&after.0.tree.wires, &after.1.tree.wires);
            lemma_arc_unique(
                a,
                b,
                after.0.tree,
                after.1.tree,
                (before.0.arcs, before.1.arcs),
                (after.0.arcs, after.1.arcs),
                sink,
                goal,
            );
        }
    }
}

/// The search found this path to the goal, or none.
spec fn finds(
    router: NetRouter<'_>,
    net: NetId,
    sink: CellPinId,
    goal: WireId,
    estimates: RouteSearch,
    before: GrowthPoint,
    path: Option<(Vec<WireId>, Vec<PipId>)>,
    met: MetResources,
) -> bool {
    match path {
        Some(path) => router.finds_path(net, sink, goal, estimates, before, path, met),
        None => router.finds_none(net, sink, goal, estimates, before, met),
    }
}

/// What the search asks and answers.
proof fn lemma_finds(
    router: NetRouter<'_>,
    net: NetId,
    sink: CellPinId,
    goal: WireId,
    estimates: RouteSearch,
    before: GrowthPoint,
    path: Option<(Vec<WireId>, Vec<PipId>)>,
    met: MetResources,
) -> (found: (RouteSearch, RouteQuery<'_>))
    requires
        finds(router, net, sink, goal, estimates, before, path, met),
    ensures
        found.0.same_estimates(&estimates),
        router.asks(found.1, net, sink, goal, before.arrivals),
        router.sink_answer(
            found.0,
            found.1,
            &before.tree.wires,
            sink_minimum(router.costs, net, sink),
            path,
            met,
        ),
{
    let found = choose|search: RouteSearch, query: RouteQuery<'_>|
        {
            &&& search.same_estimates(&estimates)
            &&& #[trigger] router.asks(query, net, sink, goal, before.arrivals)
            &&& #[trigger] router.sink_answer(
                search,
                query,
                &before.tree.wires,
                sink_minimum(router.costs, net, sink),
                path,
                met,
            )
        };
    found
}

/// One path is found, or none.
proof fn lemma_found_unique(
    a: NetRouter<'_>,
    b: NetRouter<'_>,
    net: NetId,
    sink: CellPinId,
    goal: WireId,
    search: RouteSearch,
    other: RouteSearch,
    before: (GrowthPoint, GrowthPoint),
    x: Option<(Vec<WireId>, Vec<PipId>)>,
    y: Option<(Vec<WireId>, Vec<PipId>)>,
    met: MetResources,
    also: MetResources,
)
    requires
        are_twins(a, b),
        search.same_estimates(&other),
        alike(before.0, before.1),
        finds(a, net, sink, goal, search, before.0, x, met),
        finds(b, net, sink, goal, other, before.1, y, also),
    ensures
        same_path(x, y),
{
    let p = lemma_finds(a, net, sink, goal, search, before.0, x, met);
    let q = lemma_finds(b, net, sink, goal, other, before.1, y, also);
    lemma_same_query(a, b, net, sink, goal, before.0.arrivals, p.1, q.1);
    lemma_sink_unique(
        a,
        b,
        p.0,
        q.0,
        p.1,
        &before.0.tree.wires,
        &before.1.tree.wires,
        sink_minimum(a.costs, net, sink),
        x,
        y,
        met,
        also,
    );
}

/// A sink that joins does not fail.
proof fn lemma_join_or_fail(
    a: NetRouter<'_>,
    b: NetRouter<'_>,
    net: NetId,
    sink: CellPinId,
    search: RouteSearch,
    other: RouteSearch,
    before: (GrowthPoint, GrowthPoint),
    after: GrowthPoint,
    error: PnrError,
    met: MetResources,
)
    requires
        are_twins(a, b),
        search.same_estimates(&other),
        alike(before.0, before.1),
        a.joins_sink(net, sink, search, before.0, after),
    ensures
        !b.fails_at(net, sink, other, before.1, error, met),
{
    let goal = pin_wire(a.graph, a.placement, sink)->0;
    assert(same_arcs(before.1.arcs, before.0.arcs)) by {
        assert forall|i: int| 0 <= i < before.1.arcs.len() implies (
        #[trigger] before.1.arcs[i]).same(&before.0.arcs[i]) by {
            assert(before.0.arcs[i].same(&before.1.arcs[i]));
        }
    }
    if is_reached(before.0.arcs, sink) {
        lemma_same_reach(before.0.arcs, before.1.arcs, sink);
    }
    if is_reached(before.1.arcs, sink) {
        lemma_same_reach(before.1.arcs, before.0.arcs, sink);
    }
    if b.fails_at(net, sink, other, before.1, error, met) && error is Unroutable && !is_reached(
        before.0.arcs,
        sink,
    ) && !before.0.tree.wires@.contains(goal) {
        let p = choose|path: (Vec<WireId>, Vec<PipId>)|
            {
                &&& #[trigger] a.finds_path(net, sink, goal, search, before.0, path, after.met)
                &&& before.0.met.within(after.met)
                &&& a.hangs_path(
                    before.0,
                    path.0@,
                    path.1@,
                    sink_minimum(a.costs, net, sink),
                    after,
                )
                &&& a.adds_arc(after.tree, before.0.arcs, after.arcs, sink, goal)
            };
        assert(b.finds_none(net, sink, goal, other, before.1, met));
        lemma_found_unique(
            a,
            b,
            net,
            sink,
            goal,
            search,
            other,
            before,
            Some(p),
            None,
            after.met,
            met,
        );
    }
}

/// The sinks of a net join in one order.
proof fn lemma_sequence_unique(
    a: NetRouter<'_>,
    b: NetRouter<'_>,
    net: NetId,
    x: Seq<CellPinId>,
    y: Seq<CellPinId>,
)
    requires
        are_twins(a, b),
        a.is_sink_sequence(net, x),
        b.is_sink_sequence(net, y),
    ensures
        x == y,
{
    let sinks = a.graph.design.nets@[net.0 as int].sinks@;
    let d = choose|d: Map<CellPinId, u64>| #[trigger] a.orders_sinks(net, d, x);
    let e = choose|e: Map<CellPinId, u64>| #[trigger] b.orders_sinks(net, e, y);
    let key = |s: CellPinId| sink_order(net, a.costs, d, s).rank();
    assert forall|i: int| 0 <= i < y.len() implies d[#[trigger] y[i]] == e[y[i]] by {
        let k = crate::ordered::lemma_counterpart(y, sinks, i);
        assert(d[sinks[k]] == a.sink_distance(net, sinks[k]));
        assert(e[sinks[k]] == b.sink_distance(net, sinks[k]));
    }
    assert forall|i: int, j: int| 0 <= i < j < y.len() implies key(#[trigger] y[i]) <= key(
        #[trigger] y[j],
    ) by {
        assert(sink_order(net, b.costs, e, y[i]) == sink_order(net, a.costs, d, y[i]));
        assert(sink_order(net, b.costs, e, y[j]) == sink_order(net, a.costs, d, y[j]));
    }
    assert forall|i: int, j: int|
        0 <= i < x.len() && 0 <= j < x.len() && key(#[trigger] x[i]) == key(
            #[trigger] x[j],
        ) implies x[i] == x[j] by {
        SinkOrder::rank_is_injective(
            sink_order(net, a.costs, d, x[i]),
            sink_order(net, a.costs, d, x[j]),
        );
    }
    lemma_sorted_unique(x, y, key);
}

/// Two growths of one net agree as far as the shorter one goes.
proof fn lemma_growth_unique(
    a: NetRouter<'_>,
    b: NetRouter<'_>,
    net: NetId,
    fixed: Seq<RouteArc>,
    others: Seq<RouteArc>,
    search: RouteSearch,
    other: RouteSearch,
    order: Seq<CellPinId>,
    x: Seq<GrowthPoint>,
    y: Seq<GrowthPoint>,
    count: int,
)
    requires
        are_twins(a, b),
        same_arcs(fixed, others),
        search.same_estimates(&other),
        a.is_growth(net, fixed, search, order, x),
        b.is_growth(net, others, other, order, y),
        0 <= count < x.len(),
        count < y.len(),
    ensures
        alike(x[count], y[count]),
    decreases count,
{
    if count == 0 {
        lemma_planted_unique(a, b, a.driver_wire(net)->0, fixed, others, x[0], y[0]);
    } else {
        lemma_growth_unique(
            a,
            b,
            net,
            fixed,
            others,
            search,
            other,
            order,
            x,
            y,
            count - 1,
        );
        assert(a.is_growth_step(net, search, order, x, count - 1));
        assert(b.is_growth_step(net, other, order, y, count - 1));
        lemma_join_unique(
            a,
            b,
            net,
            order[count - 1],
            search,
            other,
            (x[count - 1], y[count - 1]),
            (x[count], y[count]),
        );
    }
}

/// A net grows into one route.
pub proof fn lemma_grows_unique(
    a: NetRouter<'_>,
    b: NetRouter<'_>,
    net: NetId,
    fixed: Seq<RouteArc>,
    others: Seq<RouteArc>,
    search: RouteSearch,
    other: RouteSearch,
    route: NetRoute,
    second: NetRoute,
    met: MetResources,
    also: MetResources,
)
    requires
        are_twins(a, b),
        same_arcs(fixed, others),
        search.same_estimates(&other),
        a.grows(net, fixed, search, route, met),
        b.grows(net, others, other, second, also),
    ensures
        route.same_arcs(&second),
        route.wire_refs@ == second.wire_refs@,
        route.pip_refs@ == second.pip_refs@,
        is_tree(route) == is_tree(second),
{
    let (order, x) = choose|order: Seq<CellPinId>, chain: Seq<GrowthPoint>|
        {
            &&& #[trigger] a.is_growth(net, fixed, search, order, chain)
            &&& chain.len() == order.len() + 1
            &&& route.net == net
            &&& route.is_fresh()
            &&& crate::route::arcs_sorted(route.arcs@)
            &&& route.arcs@.to_multiset() == chain.last().arcs.to_multiset()
            &&& chain.last().met == met
        };
    let (turns, y) = choose|order: Seq<CellPinId>, chain: Seq<GrowthPoint>|
        {
            &&& #[trigger] b.is_growth(net, others, other, order, chain)
            &&& chain.len() == order.len() + 1
            &&& second.net == net
            &&& second.is_fresh()
            &&& crate::route::arcs_sorted(second.arcs@)
            &&& second.arcs@.to_multiset() == chain.last().arcs.to_multiset()
            &&& chain.last().met == also
        };
    lemma_sequence_unique(a, b, net, order, turns);
    lemma_growth_unique(
        a,
        b,
        net,
        fixed,
        others,
        search,
        other,
        order,
        x,
        y,
        x.len() - 1,
    );
    let p = x.last().arcs;
    let q = y.last().arcs;
    assert(arc_values(p) =~= arc_values(q)) by {
        assert forall|i: int| 0 <= i < p.len() implies arc_values(p)[i] == arc_values(q)[i] by {
            assert(p[i].same(&q[i]));
        }
    }
    let values = |arc: RouteArc| (arc.sink, arc.wires@, arc.pips@);
    lemma_mapped_multiset(route.arcs@, p, values);
    lemma_mapped_multiset(second.arcs@, q, values);
    the_order_of_arcs_does_not_matter(route, second);
    route.wire_refs.lemma_size();
    route.pip_refs.lemma_size();
    second.wire_refs.lemma_size();
    second.pip_refs.lemma_size();
}

/// A net that grows into a route is not stranded.
pub proof fn lemma_grows_or_strands(
    a: NetRouter<'_>,
    b: NetRouter<'_>,
    net: NetId,
    fixed: Seq<RouteArc>,
    others: Seq<RouteArc>,
    search: RouteSearch,
    other: RouteSearch,
    route: NetRoute,
    error: PnrError,
    met: MetResources,
    also: MetResources,
)
    requires
        are_twins(a, b),
        same_arcs(fixed, others),
        search.same_estimates(&other),
        a.grows(net, fixed, search, route, met),
    ensures
        !b.strands(net, others, other, error, also),
{
    let (order, x) = choose|order: Seq<CellPinId>, chain: Seq<GrowthPoint>|
        {
            &&& #[trigger] a.is_growth(net, fixed, search, order, chain)
            &&& chain.len() == order.len() + 1
            &&& route.net == net
            &&& route.is_fresh()
            &&& crate::route::arcs_sorted(route.arcs@)
            &&& route.arcs@.to_multiset() == chain.last().arcs.to_multiset()
            &&& chain.last().met == met
        };
    if b.strands(net, others, other, error, also) && !b.lacks_driver(net, error) {
        let (turns, y) = choose|order: Seq<CellPinId>, chain: Seq<GrowthPoint>|
            {
                &&& #[trigger] b.is_growth(net, others, other, order, chain)
                &&& chain.len() <= order.len()
                &&& chain.last().met.within(also)
                &&& b.fails_at(net, order[chain.len() - 1], other, chain.last(), error, also)
            };
        lemma_sequence_unique(a, b, net, order, turns);
        let last = y.len() - 1;
        lemma_growth_unique(a, b, net, fixed, others, search, other, order, x, y, last);
        assert(a.is_growth_step(net, search, order, x, last));
        lemma_join_or_fail(
            a,
            b,
            net,
            order[last],
            search,
            other,
            (x[last], y[last]),
            x[last + 1],
            error,
            also,
        );
    }
}

/// Both errors tell of one failure to route a net.
pub open spec fn same_failure(a: PnrError, b: PnrError) -> bool {
    match (a, b) {
        (
            PnrError::MissingPlacement { cell: x },
            PnrError::MissingPlacement { cell: y },
        ) => x == y,
        (PnrError::Model(_), PnrError::Model(_)) => true,
        (
            PnrError::Unroutable { net: n, driver: d, sink: t },
            PnrError::Unroutable { net: m, driver: e, sink: u },
        ) => n@ == m@ && d@ == e@ && t@ == u@,
        _ => false,
    }
}

/// The same arcs are the same the other way round.
proof fn lemma_alike_back(a: GrowthPoint, b: GrowthPoint)
    requires
        alike(a, b),
    ensures
        alike(b, a),
{
    assert forall|i: int| 0 <= i < b.arcs.len() implies (#[trigger] b.arcs[i]).same(&a.arcs[i]) by {
        assert(a.arcs[i].same(&b.arcs[i]));
    }
}

/// A sink fails for one reason.
proof fn lemma_failure_unique(
    a: NetRouter<'_>,
    b: NetRouter<'_>,
    net: NetId,
    sink: CellPinId,
    search: RouteSearch,
    other: RouteSearch,
    before: (GrowthPoint, GrowthPoint),
    x: PnrError,
    y: PnrError,
    met: MetResources,
    also: MetResources,
)
    requires
        are_twins(a, b),
        alike(before.0, before.1),
        a.fails_at(net, sink, search, before.0, x, met),
        b.fails_at(net, sink, other, before.1, y, also),
    ensures
        same_failure(x, y),
{
    lemma_alike_back(before.0, before.1);
    if is_reached(before.0.arcs, sink) {
        lemma_same_reach(before.0.arcs, before.1.arcs, sink);
    }
    if is_reached(before.1.arcs, sink) {
        lemma_same_reach(before.1.arcs, before.0.arcs, sink);
    }
}

/// A stranded net fails for one reason.
pub proof fn lemma_strands_unique(
    a: NetRouter<'_>,
    b: NetRouter<'_>,
    net: NetId,
    fixed: Seq<RouteArc>,
    others: Seq<RouteArc>,
    search: RouteSearch,
    other: RouteSearch,
    x: PnrError,
    y: PnrError,
    met: MetResources,
    also: MetResources,
)
    requires
        are_twins(a, b),
        same_arcs(fixed, others),
        search.same_estimates(&other),
        a.strands(net, fixed, search, x, met),
        b.strands(net, others, other, y, also),
    ensures
        same_failure(x, y),
{
    if !a.lacks_driver(net, x) && !b.lacks_driver(net, y) {
        let (order, p) = choose|order: Seq<CellPinId>, chain: Seq<GrowthPoint>|
            {
                &&& #[trigger] a.is_growth(net, fixed, search, order, chain)
                &&& chain.len() <= order.len()
                &&& chain.last().met.within(met)
                &&& a.fails_at(net, order[chain.len() - 1], search, chain.last(), x, met)
            };
        let (turns, q) = choose|order: Seq<CellPinId>, chain: Seq<GrowthPoint>|
            {
                &&& #[trigger] b.is_growth(net, others, other, order, chain)
                &&& chain.len() <= order.len()
                &&& chain.last().met.within(also)
                &&& b.fails_at(net, order[chain.len() - 1], other, chain.last(), y, also)
            };
        lemma_sequence_unique(a, b, net, order, turns);
        let last = if p.len() <= q.len() {
            p.len() - 1
        } else {
            q.len() - 1
        };
        lemma_growth_unique(a, b, net, fixed, others, search, other, order, p, q, last);
        if p.len() < q.len() {
            assert(b.is_growth_step(net, other, order, q, last));
            lemma_alike_back(p[last], q[last]);
            lemma_join_or_fail(
                b,
                a,
                net,
                order[last],
                other,
                search,
                (q[last], p[last]),
                q[last + 1],
                x,
                met,
            );
        } else if q.len() < p.len() {
            assert(a.is_growth_step(net, search, order, p, last));
            lemma_join_or_fail(
                a,
                b,
                net,
                order[last],
                search,
                other,
                (p[last], q[last]),
                p[last + 1],
                y,
                also,
            );
        } else {
            lemma_failure_unique(
                a,
                b,
                net,
                order[last],
                search,
                other,
                (p[last], q[last]),
                x,
                y,
                met,
                also,
            );
        }
    }
}

} // verus!
