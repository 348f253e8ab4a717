//! A net takes its turn in one way.

use std::sync::Arc;

use vstd::prelude::*;

use crate::cohort_unique::{lemma_same_sets, same_route, same_slot, same_slots};
use crate::course::{present_weight, price_holds, prices_hold, slot_arcs, NegotiationPoint};
use crate::device::Device;
use crate::error::PnrError;
use crate::growth_unique::{
    are_twins, lemma_grows_or_strands, lemma_grows_unique, lemma_same_slices,
    lemma_strands_unique, same_arcs, same_failure,
};
use crate::model::NetId;
use crate::net_growth::NetRouter;
use crate::occupancy::{lemma_users_update, pip_sets, slot_pips, slot_wires, users, wire_sets, ResourceTable};
use crate::route::{NetRoute, RouteArc};
use crate::search::{MetResources, RouteSearch};
use crate::slots::enters_full;
use crate::stage_unique::{lemma_same_counted, lemma_same_update, same_counts, same_stage};
use crate::stages::{is_counted, Stage};
use crate::trial::Trial;
use crate::workspace::{slot_fits, RoutingWorkspace};

verus! {

/// Both trials route one placed design under the same constraints and costs.
pub open spec fn are_kin(a: Trial<'_>, b: Trial<'_>) -> bool {
    &&& a.graph == b.graph
    &&& a.placement == b.placement
    &&& a.constraints == b.constraints
    &&& a.costs == b.costs
}

/// Every wire and PIP can carry a net.
pub open spec fn all_usable(device: &Device) -> bool {
    &&& forall|w: int| 0 <= w < device.wires@.len() ==> (#[trigger] device.wires@[w]).capacity >= 1
    &&& forall|p: int| 0 <= p < device.pips@.len() ==> (#[trigger] device.pips@[p]).capacity >= 1
}

/// Both turns route the net alike, or fail alike.
pub open spec fn same_turn(a: Result<NetRoute, PnrError>, b: Result<NetRoute, PnrError>) -> bool {
    match (a, b) {
        (Ok(x), Ok(y)) => same_route(x, y),
        (Err(x), Err(y)) => same_failure(x, y),
        _ => false,
    }
}

/// Usable resources with the same users and history have the same price.
proof fn lemma_same_prices(a: ResourceTable, b: ResourceTable, count: int, present: int)
    requires
        a.wf(count),
        b.wf(count),
        same_counts(a, b),
        a.history@ == b.history@,
        prices_hold(a, present),
        prices_hold(b, present),
        forall|r: int| 0 <= r < count ==> (#[trigger] a.capacities@[r]) >= 1,
    ensures
        a.congestion@ == b.congestion@,
{
    assert forall|r: int| 0 <= r < count implies a.congestion@[r] == b.congestion@[r] by {
        assert(price_holds(a, present, r));
        assert(price_holds(b, present, r));
        if a.occupancy@[r] == 0 && a.history@[r] == 0 {
            assert(a.capacities@[r] >= 1);
            assert(crate::cost::prospective_overuse(0, a.capacities@[r] as int) == 0);
            assert(present * 0 == 0);
        }
    }
    assert(a.congestion@ =~= b.congestion@);
}

/// A net is routed in one way at one set of prices.
proof fn lemma_buys_unique(
    a: Trial<'_>,
    b: Trial<'_>,
    x: RoutingWorkspace,
    y: RoutingWorkspace,
    first_iteration: bool,
    net: NetId,
    fixed: Seq<RouteArc>,
    others: Seq<RouteArc>,
    one: Result<NetRoute, PnrError>,
    two: Result<NetRoute, PnrError>,
)
    requires
        are_kin(a, b),
        x.search.same_estimates(&y.search),
        x.wires.congestion@ == y.wires.congestion@,
        x.pips.congestion@ == y.pips.congestion@,
        x.wires.capacities@ == y.wires.capacities@,
        x.pips.capacities@ == y.pips.capacities@,
        x.wire_points@ == y.wire_points@,
        same_arcs(fixed, others),
        a.buys(x, first_iteration, net, fixed, one),
        b.buys(y, first_iteration, net, others, two),
    ensures
        same_turn(one, two),
{
    reveal(Trial::buys);
    match (one, two) {
        (Ok(p), Ok(q)) => {
            let (r, met) = choose|router: NetRouter<'_>, met: MetResources|
                a.is_buyer(router, x, first_iteration) && #[trigger] router.grows(
                    net,
                    fixed,
                    x.search,
                    p,
                    met,
                );
            let (s, also) = choose|router: NetRouter<'_>, met: MetResources|
                b.is_buyer(router, y, first_iteration) && #[trigger] router.grows(
                    net,
                    others,
                    y.search,
                    q,
                    met,
                );
            lemma_buyers_are_twins(a, b, x, y, first_iteration, r, s);
            lemma_grows_unique(r, s, net, fixed, others, x.search, y.search, p, q, met, also);
        },
        (Ok(p), Err(q)) => {
            let (r, met) = choose|router: NetRouter<'_>, met: MetResources|
                a.is_buyer(router, x, first_iteration) && #[trigger] router.grows(
                    net,
                    fixed,
                    x.search,
                    p,
                    met,
                );
            let (s, also) = choose|router: NetRouter<'_>, met: MetResources|
                b.is_buyer(router, y, first_iteration) && #[trigger] router.strands(
                    net,
                    others,
                    y.search,
                    q,
                    met,
                );
            lemma_buyers_are_twins(a, b, x, y, first_iteration, r, s);
            lemma_grows_or_strands(r, s, net, fixed, others, x.search, y.search, p, q, met, also);
        },
        (Err(p), Ok(q)) => {
            let (r, met) = choose|router: NetRouter<'_>, met: MetResources|
                a.is_buyer(router, x, first_iteration) && #[trigger] router.strands(
                    net,
                    fixed,
                    x.search,
                    p,
                    met,
                );
            let (s, also) = choose|router: NetRouter<'_>, met: MetResources|
                b.is_buyer(router, y, first_iteration) && #[trigger] router.grows(
                    net,
                    others,
                    y.search,
                    q,
                    met,
                );
            lemma_buyers_are_twins(a, b, x, y, first_iteration, r, s);
            assert forall|i: int| 0 <= i < others.len() implies (#[trigger] others[i]).same(
                &fixed[i],
            ) by {
                assert(fixed[i].same(&others[i]));
            }
            lemma_grows_or_strands(s, r, net, others, fixed, y.search, x.search, q, p, also, met);
        },
        (Err(p), Err(q)) => {
            let (r, met) = choose|router: NetRouter<'_>, met: MetResources|
                a.is_buyer(router, x, first_iteration) && #[trigger] router.strands(
                    net,
                    fixed,
                    x.search,
                    p,
                    met,
                );
            let (s, also) = choose|router: NetRouter<'_>, met: MetResources|
                b.is_buyer(router, y, first_iteration) && #[trigger] router.strands(
                    net,
                    others,
                    y.search,
                    q,
                    met,
                );
            lemma_buyers_are_twins(a, b, x, y, first_iteration, r, s);
            lemma_strands_unique(r, s, net, fixed, others, x.search, y.search, p, q, met, also);
        },
    }
}

/// Routers at the same prices are alike.
proof fn lemma_buyers_are_twins(
    a: Trial<'_>,
    b: Trial<'_>,
    x: RoutingWorkspace,
    y: RoutingWorkspace,
    first_iteration: bool,
    r: NetRouter<'_>,
    s: NetRouter<'_>,
)
    requires
        are_kin(a, b),
        x.wires.congestion@ == y.wires.congestion@,
        x.pips.congestion@ == y.pips.congestion@,
        x.wires.capacities@ == y.wires.capacities@,
        x.pips.capacities@ == y.pips.capacities@,
        x.wire_points@ == y.wire_points@,
        a.is_buyer(r, x, first_iteration),
        b.is_buyer(s, y, first_iteration),
    ensures
        are_twins(r, s),
{
    lemma_same_slices(r.wire_congestion, s.wire_congestion);
    lemma_same_slices(r.pip_congestion, s.pip_congestion);
    lemma_same_slices(r.blocked_pip_words, s.blocked_pip_words);
    lemma_same_slices(r.metadata.wire_points, s.metadata.wire_points);
    lemma_same_slices(r.metadata.wire_capacities, s.metadata.wire_capacities);
    lemma_same_slices(r.metadata.pip_capacities, s.metadata.pip_capacities);
}

/// Both points charge the same for past overuse.
pub open spec fn same_history(p: NegotiationPoint, q: NegotiationPoint) -> bool {
    p.wire_history == q.wire_history && p.pip_history == q.pip_history
}

/// A net takes its turn among the same routes in one way.
pub proof fn lemma_turn_unique(
    a: Trial<'_>,
    b: Trial<'_>,
    x: RouteSearch,
    y: RouteSearch,
    iteration: int,
    p: NegotiationPoint,
    q: NegotiationPoint,
    r: Seq<Option<Arc<NetRoute>>>,
    s: Seq<Option<Arc<NetRoute>>>,
    net: usize,
    one: Result<NetRoute, PnrError>,
    two: Result<NetRoute, PnrError>,
)
    requires
        are_kin(a, b),
        all_usable(a.graph.device),
        x.same_estimates(&y),
        same_history(p, q),
        same_slots(r, s),
        net < r.len(),
        a.is_turn(x, iteration, p, r, net, one),
        b.is_turn(y, iteration, q, s, net, two),
    ensures
        same_turn(one, two),
{
    let weight = present_weight(iteration);
    let u = choose|room: RoutingWorkspace|
        #[trigger] a.is_market(x, p, weight, r, room) && a.buys(
            room,
            iteration == 0,
            NetId(net),
            slot_arcs(r[net as int]),
            one,
        );
    let v = choose|room: RoutingWorkspace|
        #[trigger] b.is_market(y, q, weight, s, room) && b.buys(
            room,
            iteration == 0,
            NetId(net),
            slot_arcs(s[net as int]),
            two,
        );
    lemma_same_counted(a.graph.device, r, s, u, v);
    assert forall|w: int| 0 <= w < u.wires.capacities@.len() implies (
        #[trigger] u.wires.capacities@[w]) >= 1 by {
        assert(a.graph.device.wires@[w].capacity >= 1);
    }
    assert forall|w: int| 0 <= w < u.pips.capacities@.len() implies (
        #[trigger] u.pips.capacities@[w]) >= 1 by {
        assert(a.graph.device.pips@[w].capacity >= 1);
    }
    lemma_same_prices(u.wires, v.wires, u.wires.capacities@.len() as int, weight);
    lemma_same_prices(u.pips, v.pips, u.pips.capacities@.len() as int, weight);
    assert(same_slot(r[net as int], s[net as int]));
    lemma_buys_unique(
        a,
        b,
        u,
        v,
        iteration == 0,
        NetId(net),
        slot_arcs(r[net as int]),
        slot_arcs(s[net as int]),
        one,
        two,
    );
}

/// A route that can be counted enters no full counter.
proof fn lemma_counted_or_full(
    device: &Device,
    r: Seq<Option<Arc<NetRoute>>>,
    s: Seq<Option<Arc<NetRoute>>>,
    net: int,
    later: Seq<Option<Arc<NetRoute>>>,
    route: Arc<NetRoute>,
    room: RoutingWorkspace,
)
    requires
        same_slots(r, s),
        0 <= net < r.len(),
        later == r.update(net, later[net]),
        same_slot(later[net], Some(route)),
        is_counted(device, later, room),
        slot_fits(Some(route), device.wires@.len() as int, device.pips@.len() as int),
    ensures
        !enters_full(s, net, Some(route)),
{
    lemma_same_sets(r, s);
    assert(same_slot(r[net], s[net]));
    assert(slot_wires(later[net]) =~= slot_wires(Some(route)));
    assert(slot_pips(later[net]) =~= slot_pips(Some(route)));
    assert(wire_sets(r)[net] == slot_wires(r[net]));
    assert(pip_sets(r)[net] == slot_pips(r[net]));
    assert(wire_sets(s)[net] == slot_wires(s[net]));
    assert(pip_sets(s)[net] == slot_pips(s[net]));
    assert(wire_sets(later) =~= wire_sets(r).update(net, slot_wires(later[net])));
    assert(pip_sets(later) =~= pip_sets(r).update(net, slot_pips(later[net])));
    if exists|w: int|
        #[trigger] slot_wires(Some(route)).contains(w) && users(wire_sets(s), w) >= u16::MAX
            && !slot_wires(s[net]).contains(w) {
        let w = choose|w: int|
            #[trigger] slot_wires(Some(route)).contains(w) && users(wire_sets(s), w) >= u16::MAX
                && !slot_wires(s[net]).contains(w);
        lemma_users_update(wire_sets(r), net, slot_wires(later[net]), w);
        assert(room.wires.occupancy@[w] == users(wire_sets(later), w));
        assert(false);
    }
    if exists|w: int|
        #[trigger] slot_pips(Some(route)).contains(w) && users(pip_sets(s), w) >= u16::MAX
            && !slot_pips(s[net]).contains(w) {
        let w = choose|w: int|
            #[trigger] slot_pips(Some(route)).contains(w) && users(pip_sets(s), w) >= u16::MAX
                && !slot_pips(s[net]).contains(w);
        lemma_users_update(pip_sets(r), net, slot_pips(later[net]), w);
        assert(room.pips.occupancy@[w] == users(pip_sets(later), w));
        assert(false);
    }
}

/// A net that takes its turn does not halt the iteration.
pub proof fn lemma_turns_or_halts(
    a: Trial<'_>,
    b: Trial<'_>,
    x: RouteSearch,
    y: RouteSearch,
    iteration: int,
    p: NegotiationPoint,
    q: NegotiationPoint,
    before: Stage,
    after: Stage,
    s: Seq<Option<Arc<NetRoute>>>,
    net: usize,
    error: PnrError,
)
    requires
        are_kin(a, b),
        all_usable(a.graph.device),
        x.same_estimates(&y),
        same_history(p, q),
        same_slots(before.routes, s),
        net < before.routes.len(),
        a.takes_turn(x, iteration, p, net, before, after),
    ensures
        !b.halts(y, iteration, q, s, net, error),
{
    if b.halts(y, iteration, q, s, net, error) {
        let mine = after.routes[net as int]->0;
        if error is CongestionNotResolved {
            let route = choose|route: Arc<NetRoute>|
                {
                    &&& b.is_turn(y, iteration, q, s, net, Ok(*route))
                    &&& slot_fits(
                        Some(route),
                        b.graph.device.wires@.len() as int,
                        b.graph.device.pips@.len() as int,
                    )
                    &&& #[trigger] enters_full(s, net as int, Some(route))
                };
            lemma_turn_unique(
                a,
                b,
                x,
                y,
                iteration,
                p,
                q,
                before.routes,
                s,
                net,
                routed(mine),
                routed(route),
            );
            let device = a.graph.device;
            let room = choose|room: RoutingWorkspace|
                #[trigger] is_counted(device, after.routes, room);
            lemma_counted_or_full(device, before.routes, s, net as int, after.routes, route, room);
        } else {
            lemma_turn_unique(
                a,
                b,
                x,
                y,
                iteration,
                p,
                q,
                before.routes,
                s,
                net,
                routed(mine),
                Err(error),
            );
        }
    }
}

/// The outcome that gives this route.
pub open spec fn routed(route: Arc<NetRoute>) -> Result<NetRoute, PnrError> {
    Ok(*route)
}

/// A net takes its turn in one way.
pub proof fn lemma_takes_turn_unique(
    a: Trial<'_>,
    b: Trial<'_>,
    x: RouteSearch,
    y: RouteSearch,
    iteration: int,
    p: NegotiationPoint,
    q: NegotiationPoint,
    net: usize,
    before: (Stage, Stage),
    after: (Stage, Stage),
)
    requires
        are_kin(a, b),
        all_usable(a.graph.device),
        x.same_estimates(&y),
        same_history(p, q),
        same_stage(before.0, before.1),
        net < before.0.routes.len(),
        a.takes_turn(x, iteration, p, net, before.0, after.0),
        b.takes_turn(y, iteration, q, net, before.1, after.1),
    ensures
        same_stage(after.0, after.1),
        after.0.wires.wf() && after.0.pips.wf(),
        after.1.wires.wf() && after.1.pips.wf(),
{
    let n = net as int;
    lemma_turn_unique(
        a,
        b,
        x,
        y,
        iteration,
        p,
        q,
        before.0.routes,
        before.1.routes,
        net,
        routed(after.0.routes[n]->0),
        routed(after.1.routes[n]->0),
    );
    lemma_same_update((before.0.routes, before.1.routes), n, (after.0.routes, after.1.routes));
    crate::stage_unique::lemma_claims_unique(a.graph.device, net, before, after);
}

/// Nets that halt the iteration at the same place halt it alike.
pub proof fn lemma_halts_unique(
    a: Trial<'_>,
    b: Trial<'_>,
    x: RouteSearch,
    y: RouteSearch,
    iteration: int,
    p: NegotiationPoint,
    q: NegotiationPoint,
    r: Seq<Option<Arc<NetRoute>>>,
    s: Seq<Option<Arc<NetRoute>>>,
    net: usize,
    one: PnrError,
    two: PnrError,
)
    requires
        are_kin(a, b),
        all_usable(a.graph.device),
        x.same_estimates(&y),
        same_history(p, q),
        same_slots(r, s),
        net < r.len(),
        a.halts(x, iteration, p, r, net, one),
        b.halts(y, iteration, q, s, net, two),
    ensures
        same_reason(one, two),
{
    let first = if one is CongestionNotResolved {
        routed(choose|route: Arc<NetRoute>|
            a.is_turn(x, iteration, p, r, net, Ok(*route)) && #[trigger] enters_full(
                r,
                net as int,
                Some(route),
            ))
    } else {
        Err(one)
    };
    let second = if two is CongestionNotResolved {
        routed(choose|route: Arc<NetRoute>|
            b.is_turn(y, iteration, q, s, net, Ok(*route)) && #[trigger] enters_full(
                s,
                net as int,
                Some(route),
            ))
    } else {
        Err(two)
    };
    lemma_turn_unique(a, b, x, y, iteration, p, q, r, s, net, first, second);
}

/// Both negotiations fail at the same net alike, or both leave congestion.
pub open spec fn same_reason(a: PnrError, b: PnrError) -> bool {
    same_failure(a, b) || (a is CongestionNotResolved && b is CongestionNotResolved)
}

} // verus!
