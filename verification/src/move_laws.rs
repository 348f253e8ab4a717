//! What short walks take, and what moving one unit gains.

use vstd::prelude::*;

use crate::cell_moves::{first_of, CellMove};
use crate::cell_refine::proposals_outcome;
use crate::connection_cost::{
    delays_between, is_least_of, least_price_is_unique, link_span, local_delay, total_span,
};
use crate::connection_move::{connection_outcome, is_lifted, is_move, unit_moved, ConnectionMove};
use crate::cost::clip_u64;
use crate::device::{Device, UnifiedGraph};
use crate::finish::all_placed;
use crate::hold_laws::delay_sum;
use crate::local_delay::{ends_within, is_least_price, takes_step, walk_price};
use crate::model::{BelId, CellId, CellPinId, PipId, Point, WireId};
use crate::placement::Placement;
use crate::projection::RouteCapacityProjection;
use crate::ranking::RankedRow;
use crate::refiner::PlacementRefiner;
use crate::start::starts_legal;
use crate::target_laws::{
    bound_delay, bound_span, lemma_bel_on_row, lemma_current_row, lemma_proposed,
};
use crate::usage_model::{
    cells_in_range, lemma_with_row, lemma_without_cells, with_row, without_cells,
};

verus! {

/// The coordinate lies between the two others, or one past them.
pub open spec fn near_span(value: int, a: int, b: int) -> bool {
    (a - 1 <= value || b - 1 <= value) && (value <= a + 1 || value <= b + 1)
}

/// The tile lies in the rectangle of the two others, or next to it.
pub open spec fn near_both(point: Point, a: Point, b: Point) -> bool {
    near_span(point.x as int, a.x as int, b.x as int) && near_span(
        point.y as int,
        a.y as int,
        b.y as int,
    )
}

/// The PIPs lead from the one wire to the other in at most sixteen hops, and no wire on
/// the way is far from both.
pub open spec fn is_short_walk(
    device: &Device,
    start: WireId,
    goal: WireId,
    wires: Seq<WireId>,
    pips: Seq<PipId>,
) -> bool {
    &&& wires.len() == pips.len() + 1
    &&& pips.len() <= 16
    &&& wires[0] == start
    &&& wires.last() == goal
    &&& forall|i: int|
        0 <= i < pips.len() ==> device.leads(wires[i], #[trigger] pips[i], wires[i + 1])
            && near_both(
            device.wires@[wires[i + 1].0 as int].point,
            device.wires@[start.0 as int].point,
            device.wires@[goal.0 as int].point,
        )
}

/// Every tile of the device lies in the corridor exactly where it is near both ends.
proof fn lemma_corridor(device: &Device, start: WireId, goal: WireId, wire: WireId, delays: &[u32])
    requires
        device.wf(),
        start.0 < device.wires@.len(),
        goal.0 < device.wires@.len(),
        wire.0 < device.wires@.len(),
    ensures
        crate::search::inside_corridor(
            device.wires@[wire.0 as int].point,
            delays_between(device, delays, start, goal).corridor,
        ) == near_both(
            device.wires@[wire.0 as int].point,
            device.wires@[start.0 as int].point,
            device.wires@[goal.0 as int].point,
        ),
{
    assert(device.holds(device.wires@[wire.0 as int].point));
    assert(device.holds(device.wires@[start.0 as int].point));
    assert(device.holds(device.wires@[goal.0 as int].point));
}

/// Short walks are the walks that are priced, at the sum of their delays.
proof fn lemma_short_walk(
    device: &Device,
    delays: &[u32],
    start: WireId,
    goal: WireId,
    wires: Seq<WireId>,
    pips: Seq<PipId>,
)
    requires
        device.wf(),
        start.0 < device.wires@.len(),
        goal.0 < device.wires@.len(),
    ensures
        is_short_walk(device, start, goal, wires, pips) == ends_within(
            device,
            &delays_between(device, delays, start, goal),
            set![start],
            16,
            goal,
            wires,
            pips,
        ),
        is_short_walk(device, start, goal, wires, pips) ==> walk_price(
            &delays_between(device, delays, start, goal),
            wires,
            pips,
        ) == delay_sum(delays@, pips),
{
    let prices = delays_between(device, delays, start, goal);
    if is_short_walk(device, start, goal, wires, pips) {
        assert forall|i: int| 0 <= i < pips.len() implies takes_step(
            device,
            &prices,
            wires[i],
            #[trigger] pips[i],
            wires[i + 1],
        ) by {
            device.lemma_listed(wires[i], pips[i], wires[i + 1]);
            lemma_corridor(device, start, goal, wires[i + 1], delays);
        }
        lemma_price_is_sum(device, delays, start, goal, wires, pips);
    }
    if ends_within(device, &prices, set![start], 16, goal, wires, pips) {
        assert forall|i: int| 0 <= i < pips.len() implies device.leads(
            wires[i],
            #[trigger] pips[i],
            wires[i + 1],
        ) && near_both(
            device.wires@[wires[i + 1].0 as int].point,
            device.wires@[start.0 as int].point,
            device.wires@[goal.0 as int].point,
        ) by {
            assert(takes_step(device, &prices, wires[i], pips[i], wires[i + 1]));
            device.lemma_listed(wires[i], pips[i], wires[i + 1]);
            lemma_corridor(device, start, goal, wires[i + 1], delays);
        }
    }
}

/// The price of an allowed walk is the sum of its delays.
proof fn lemma_price_is_sum(
    device: &Device,
    delays: &[u32],
    start: WireId,
    goal: WireId,
    wires: Seq<WireId>,
    pips: Seq<PipId>,
)
    requires
        wires.len() == pips.len() + 1,
        forall|i: int|
            0 <= i < pips.len() ==> takes_step(
                device,
                &delays_between(device, delays, start, goal),
                wires[i],
                #[trigger] pips[i],
                wires[i + 1],
            ),
    ensures
        walk_price(&delays_between(device, delays, start, goal), wires, pips) == delay_sum(
            delays@,
            pips,
        ),
    decreases pips.len(),
{
    let prices = delays_between(device, delays, start, goal);
    if pips.len() > 0 {
        assert forall|i: int| 0 <= i < pips.drop_last().len() implies takes_step(
            device,
            &prices,
            wires.drop_last()[i],
            #[trigger] pips.drop_last()[i],
            wires.drop_last()[i + 1],
        ) by {
            assert(takes_step(device, &prices, wires[i], pips[i], wires[i + 1]));
        }
        lemma_price_is_sum(device, delays, start, goal, wires.drop_last(), pips.drop_last());
        let last = pips.len() - 1;
        assert(takes_step(device, &prices, wires[last], pips[last], wires[last + 1]));
    }
}

/// Delays are not negative.
proof fn lemma_sum_range(delays: Seq<u32>, pips: Seq<PipId>)
    ensures
        0 <= delay_sum(delays, pips),
    decreases pips.len(),
{
    if pips.len() > 0 {
        lemma_sum_range(delays, pips.drop_last());
    }
}

/// Of all short walks some one is fastest.
proof fn lemma_fastest(
    device: &Device,
    delays: &[u32],
    start: WireId,
    goal: WireId,
    wires: Seq<WireId>,
    pips: Seq<PipId>,
) -> (least: (Seq<WireId>, Seq<PipId>))
    requires
        is_short_walk(device, start, goal, wires, pips),
    ensures
        is_short_walk(device, start, goal, least.0, least.1),
        forall|w: Seq<WireId>, p: Seq<PipId>| #[trigger]
            is_short_walk(device, start, goal, w, p) ==> delay_sum(delays@, least.1) <= delay_sum(
                delays@,
                p,
            ),
    decreases delay_sum(delays@, pips),
{
    lemma_sum_range(delays@, pips);
    if exists|w: Seq<WireId>, p: Seq<PipId>|
        #[trigger] is_short_walk(device, start, goal, w, p) && delay_sum(delays@, p) < delay_sum(
            delays@,
            pips,
        ) {
        let (w, p) = choose|w: Seq<WireId>, p: Seq<PipId>|
            #[trigger] is_short_walk(device, start, goal, w, p) && delay_sum(delays@, p)
                < delay_sum(delays@, pips);
        lemma_sum_range(delays@, p);
        lemma_fastest(device, delays, start, goal, w, p)
    } else {
        (wires, pips)
    }
}

/// The local delay of two wires is the least that the delays of the PIPs of a short walk
/// between them add up to, and there is none exactly where no short walk leads from the
/// one to the other.
pub proof fn the_local_delay_is_that_of_a_fastest_short_walk(
    device: &Device,
    delays: &[u32],
    start: WireId,
    goal: WireId,
    wires: Seq<WireId>,
    pips: Seq<PipId>,
)
    requires
        device.wf(),
        start.0 < device.wires@.len(),
        goal.0 < device.wires@.len(),
        delay_sum(delays@, pips) <= u64::MAX,
    ensures
        is_short_walk(device, start, goal, wires, pips) ==> (local_delay(
            device,
            delays,
            start,
            goal,
        ) matches Some(delay) && delay <= delay_sum(delays@, pips) && exists|
            w: Seq<WireId>,
            p: Seq<PipId>,
        |
            #[trigger] is_short_walk(device, start, goal, w, p) && delay_sum(delays@, p) == delay),
        local_delay(device, delays, start, goal) is None ==> !is_short_walk(
            device,
            start,
            goal,
            wires,
            pips,
        ),
{
    let prices = delays_between(device, delays, start, goal);
    if is_short_walk(device, start, goal, wires, pips) {
        let least = lemma_fastest(device, delays, start, goal, wires, pips);
        assert(is_short_walk(device, start, goal, wires, pips));
        lemma_sum_range(delays@, least.1);
        let delay = delay_sum(delays@, least.1) as u64;
        lemma_short_walk(device, delays, start, goal, least.0, least.1);
        assert(is_least_price(device, &prices, set![start], 16, goal, delay as int)) by {
            assert(ends_within(device, &prices, set![start], 16, goal, least.0, least.1));
            assert forall|w: Seq<WireId>, p: Seq<PipId>| #[trigger]
                ends_within(device, &prices, set![start], 16, goal, w, p) implies delay as int
                <= clip_u64(walk_price(&prices, w, p)) by {
                lemma_short_walk(device, delays, start, goal, w, p);
                assert(is_short_walk(device, start, goal, w, p));
            }
        }
        assert(is_least_of(device, &prices, set![start], goal, Some(delay)));
        least_price_is_unique(
            device,
            &prices,
            set![start],
            goal,
            Some(delay),
            local_delay(device, delays, start, goal),
        );
        assert(is_short_walk(device, start, goal, least.0, least.1));
    }
}

/// Span of a connection with the unit on the row that makes up a placement.
proof fn lemma_link_span(
    refiner: PlacementRefiner<'_>,
    unit: int,
    start: Placement,
    later: Seq<BelId>,
    row: Seq<BelId>,
    moving: CellId,
    link: (CellPinId, CellPinId),
)
    requires
        refiner.wf(),
        0 <= unit < refiner.units@.len(),
        start.bindings@.len() == refiner.graph.design.cells@.len(),
        cells_in_range(refiner.units@[unit].cells@, start.bindings@.len() as int),
        refiner.units@[unit].cells@.no_duplicates(),
        row.len() == refiner.units@[unit].cells@.len(),
        all_placed(later) == with_row(
            without_cells(all_placed(start.bindings@), refiner.units@[unit].cells@),
            refiner.units@[unit].cells@,
            row,
        ),
    ensures
        link_span(
            refiner.graph,
            refiner.units@[unit].cells@,
            row,
            moving,
            link,
            without_cells(all_placed(start.bindings@), refiner.units@[unit].cells@),
        ) matches Some(span) ==> span == bound_span(refiner, later, link),
{
    let pins = refiner.graph.design.pins@;
    let cells = refiner.units@[unit].cells@;
    assert(start.bindings.len() == start.bindings@.len());
    if link.0.0 < pins.len() && link.1.0 < pins.len() {
        assert(pins[link.0.0 as int].cell.0 < refiner.graph.design.cells@.len());
        assert(pins[link.1.0 as int].cell.0 < refiner.graph.design.cells@.len());
        lemma_bel_on_row(start.bindings@, later, cells, row, pins[link.0.0 as int].cell);
        lemma_bel_on_row(start.bindings@, later, cells, row, pins[link.1.0 as int].cell);
    }
}

/// Where no connection is shorter on the other row, the sum is no less.
proof fn lemma_span_order(
    graph: UnifiedGraph<'_>,
    cells: Seq<CellId>,
    row: Seq<BelId>,
    other: Seq<BelId>,
    moving: CellId,
    links: Seq<(CellPinId, CellPinId)>,
    placed: Seq<Option<BelId>>,
)
    requires
        total_span(graph, cells, row, moving, links, placed) is Some,
        total_span(graph, cells, other, moving, links, placed) is Some,
        forall|k: int|
            0 <= k < links.len() && link_span(
                graph,
                cells,
                row,
                moving,
                #[trigger] links[k],
                placed,
            ) is Some && link_span(graph, cells, other, moving, links[k], placed) is Some
                ==> link_span(graph, cells, row, moving, links[k], placed)->0 <= link_span(
                graph,
                cells,
                other,
                moving,
                links[k],
                placed,
            )->0,
    ensures
        total_span(graph, cells, row, moving, links, placed)->0 <= total_span(
            graph,
            cells,
            other,
            moving,
            links,
            placed,
        )->0,
    decreases links.len(),
{
    if links.len() > 0 {
        let rest = links.drop_last();
        assert forall|k: int|
            0 <= k < rest.len() && link_span(
                graph,
                cells,
                row,
                moving,
                #[trigger] rest[k],
                placed,
            ) is Some && link_span(graph, cells, other, moving, rest[k], placed)
                is Some implies link_span(graph, cells, row, moving, rest[k], placed)->0
            <= link_span(graph, cells, other, moving, rest[k], placed)->0 by {
            assert(rest[k] == links[k]);
        }
        lemma_span_order(graph, cells, row, other, moving, rest, placed);
        assert(links[links.len() - 1] == links.last());
    }
}

/// A sum that exists is made of spans that exist.
proof fn lemma_span_parts(
    graph: UnifiedGraph<'_>,
    cells: Seq<CellId>,
    row: Seq<BelId>,
    moving: CellId,
    links: Seq<(CellPinId, CellPinId)>,
    placed: Seq<Option<BelId>>,
    k: int,
)
    requires
        total_span(graph, cells, row, moving, links, placed) is Some,
        0 <= k < links.len(),
    ensures
        link_span(graph, cells, row, moving, links[k], placed) is Some,
    decreases links.len(),
{
    if k < links.len() - 1 {
        lemma_span_parts(graph, cells, row, moving, links.drop_last(), placed, k);
        assert(links.drop_last()[k] == links[k]);
    }
}

/// Entries that come first on their tiles are entries of the list.
proof fn lemma_first_points(step: CellMove<'_>, list: Seq<RankedRow>, at: int) -> (found: int)
    requires
        0 <= at < step.first_points(list).len(),
    ensures
        0 <= found < list.len(),
        list[found] == step.first_points(list)[at],
    decreases list.len(),
{
    let rest = step.first_points(list.drop_last());
    if at < rest.len() {
        let found = lemma_first_points(step, list.drop_last(), at);
        assert(list.drop_last()[found] == list[found]);
        found
    } else {
        list.len() - 1
    }
}

/// Every priced row is one of the shortlist.
proof fn lemma_priced_is_listed(
    step: CellMove<'_>,
    placed: Seq<Option<BelId>>,
    projection: &RouteCapacityProjection,
    links: Seq<(CellPinId, CellPinId)>,
    shortlist: Seq<RankedRow>,
    priced: Seq<RankedRow>,
    at: int,
) -> (k: int)
    requires
        step.is_priced_ranking(placed, projection, links, shortlist, priced),
        0 <= at < priced.len(),
    ensures
        0 <= k < shortlist.len(),
        shortlist[k].choice == priced[at].choice,
{
    assert(crate::cell_moves::comes_from(shortlist, priced[at]));
    choose|k: int|
        0 <= k < shortlist.len() && (#[trigger] shortlist[k]).choice == priced[at].choice
            && shortlist[k].score == priced[at].span
}

/// Every chosen row is a ranked row.
#[verifier::rlimit(60)]
pub(crate) proof fn lemma_chosen_is_ranked(
    step: CellMove<'_>,
    placed: Seq<Option<BelId>>,
    projection: Option<&RouteCapacityProjection>,
    max_candidates: usize,
    ranking: Seq<RankedRow>,
    chosen: Seq<RankedRow>,
    at: int,
) -> (found: int)
    requires
        step.is_selection(placed, projection, max_candidates, ranking, chosen),
        0 <= at < chosen.len(),
    ensures
        0 <= found < ranking.len(),
        ranking[found].choice == chosen[at].choice,
{
    let count = crate::cell_moves::at_least(max_candidates, 1) as int;
    if !step.is_broad() {
        at
    } else {
        match projection {
            None => lemma_first_points(step, first_of(ranking, count), at),
            Some(projection) => {
                let shortlist = first_of(
                    ranking,
                    crate::cell_moves::at_least(
                        max_candidates,
                        crate::cell_moves::PROJECTION_SHORTLIST,
                    ) as int,
                );
                let (links, priced) = choose|
                    links: Seq<(CellPinId, CellPinId)>,
                    priced: Seq<RankedRow>,
                |
                    {
                        &&& #[trigger] step.are_priced(links)
                        &&& #[trigger] step.is_priced_ranking(
                            placed,
                            projection,
                            links,
                            shortlist,
                            priced,
                        )
                        &&& chosen == step.first_points(
                            first_of(
                                if priced.len() == 0 {
                                    shortlist
                                } else {
                                    priced
                                },
                                count,
                            ),
                        )
                    };
                if priced.len() == 0 {
                    lemma_first_points(step, first_of(shortlist, count), at)
                } else {
                    let found = lemma_first_points(step, first_of(priced, count), at);
                    lemma_priced_is_listed(step, placed, projection, links, shortlist, priced, found)
                }
            },
        }
    }
}

/// Every far proposal brings the ends of some listed connection nearer to each other
/// than they were, and changes only cells of the unit.
pub proof fn far_proposals_shorten_a_connection(
    refiner: PlacementRefiner<'_>,
    start: Placement,
    cell: CellId,
    connections: &[(CellPinId, CellPinId)],
    targets: &[u64],
    delays: &[u32],
    projection: Option<&RouteCapacityProjection>,
    distance: u64,
    max_candidates: usize,
    list: Vec<Placement>,
    at: int,
) -> (k: int)
    requires
        refiner.wf(),
        distance > 2,
        proposals_outcome(
            refiner,
            start,
            cell,
            connections,
            targets,
            delays,
            projection,
            distance,
            max_candidates,
            Ok(list),
        ),
        0 <= at < list@.len(),
    ensures
        0 <= k < connections@.len(),
        bound_span(refiner, list@[at].bindings@, connections@[k]) < bound_span(
            refiner,
            start.bindings@,
            connections@[k],
        ),
{
    let (unit, step, current, occupied, placed) = lemma_proposed(
        refiner,
        start,
        cell,
        connections,
        targets,
        delays,
        projection,
        distance,
        max_candidates,
        list,
    );
    let (ranking, chosen) = choose|ranking: Seq<RankedRow>, chosen: Seq<RankedRow>|
        {
            &&& #[trigger] step.is_ranking(current, occupied, placed, ranking)
            &&& #[trigger] step.is_selection(placed, projection, max_candidates, ranking, chosen)
            &&& crate::cell_refine::are_proposals(refiner, unit, start, chosen, list@)
        };
    let found = lemma_chosen_is_ranked(
        step,
        placed,
        projection,
        max_candidates,
        ranking,
        chosen,
        at,
    );
    let index = ranking[found].choice as int;
    let cells = refiner.units@[unit].cells@;
    let row = refiner.units@[unit].choices.row(index);
    assert(step.is_candidate(current, occupied, placed, index));
    assert(unit_moved(refiner, unit, start, index, list@[at]));
    lemma_current_row(refiner, unit, start, current, occupied, placed);
    let later = list@[at].bindings@;
    assert(refiner.units@[unit].wf(refiner.graph, refiner.constraints));
    assert(row.len() == cells.len());
    let links = connections@;
    if forall|k: int|
        0 <= k < links.len() && link_span(
            refiner.graph,
            cells,
            current,
            cell,
            #[trigger] links[k],
            placed,
        ) is Some && link_span(refiner.graph, cells, row, cell, links[k], placed) is Some
            ==> link_span(refiner.graph, cells, current, cell, links[k], placed)->0
            <= link_span(refiner.graph, cells, row, cell, links[k], placed)->0 {
        lemma_span_order(refiner.graph, cells, current, row, cell, links, placed);
    }
    let k = choose|k: int|
        0 <= k < links.len() && link_span(
            refiner.graph,
            cells,
            current,
            cell,
            #[trigger] links[k],
            placed,
        ) is Some && link_span(refiner.graph, cells, row, cell, links[k], placed) is Some
            && link_span(refiner.graph, cells, current, cell, links[k], placed)->0
            > link_span(refiner.graph, cells, row, cell, links[k], placed)->0;
    lemma_link_span(refiner, unit, start, start.bindings@, current, cell, links[k]);
    lemma_link_span(refiner, unit, start, later, row, cell, links[k]);
    k
}

/// What moving one end of a connection goes through: the unit, its move, and what it
/// leaves.
pub(crate) proof fn lemma_connection_move<'a>(
    refiner: PlacementRefiner<'a>,
    start: Placement,
    driver: CellPinId,
    sink: CellPinId,
    move_driver: bool,
    delays: &'a [u32],
    distance: u64,
    placement: Placement,
) -> (found: (
    int,
    ConnectionMove<'a>,
    Seq<BelId>,
    Seq<bool>,
    Seq<Option<BelId>>,
    u64,
    int,
))
    requires
        connection_outcome(
            refiner,
            start,
            driver,
            sink,
            move_driver,
            delays,
            distance,
            Ok(Some(placement)),
        ),
    ensures
        0 <= found.0 < refiner.units@.len(),
        driver.0 < refiner.graph.design.pins@.len(),
        sink.0 < refiner.graph.design.pins@.len(),
        !refiner.units@[found.0].cells@.contains(
            refiner.graph.design.pins@[if move_driver {
                sink.0 as int
            } else {
                driver.0 as int
            }].cell,
        ),
        starts_legal(refiner.graph, refiner.constraints, refiner.units@, start.bindings@),
        is_move(refiner, found.0, start, driver, sink, move_driver, delays, found.1),
        is_lifted(refiner, found.0, start, found.2, found.3, found.4),
        found.1.delay_on(found.2[found.1.column as int]) == Some(found.5),
        found.1.is_best(found.2, found.3, found.4, distance as int, found.5, found.6),
        unit_moved(refiner, found.0, start, found.6, placement),
{
    let pins = refiner.graph.design.pins@;
    let moving = pins[if move_driver {
        driver.0 as int
    } else {
        sink.0 as int
    }].cell;
    let fixed = pins[if move_driver {
        sink.0 as int
    } else {
        driver.0 as int
    }].cell;
    let unit = choose|unit: int|
        {
            &&& 0 <= unit < refiner.units@.len()
            &&& (#[trigger] refiner.units@[unit]).cells@.contains(moving)
            &&& !refiner.units@[unit].cells@.contains(fixed)
            &&& refiner.units@[unit].choices.count() > 1
            &&& starts_legal(refiner.graph, refiner.constraints, refiner.units@, start.bindings@)
            &&& exists|
                step: ConnectionMove<'_>,
                current: Seq<BelId>,
                occupied: Seq<bool>,
                placed: Seq<Option<BelId>>,
            |
                {
                    &&& #[trigger] is_move(
                        refiner,
                        unit,
                        start,
                        driver,
                        sink,
                        move_driver,
                        delays,
                        step,
                    )
                    &&& #[trigger] is_lifted(refiner, unit, start, current, occupied, placed)
                    &&& step.delay_on(current[step.column as int]) matches Some(limit) && exists|
                        index: int,
                    |
                        {
                            &&& #[trigger] step.is_best(
                                current,
                                occupied,
                                placed,
                                distance as int,
                                limit,
                                index,
                            )
                            &&& unit_moved(refiner, unit, start, index, placement)
                        }
                }
        };
    let (step, current, occupied, placed) = choose|
        step: ConnectionMove<'_>,
        current: Seq<BelId>,
        occupied: Seq<bool>,
        placed: Seq<Option<BelId>>,
    |
        {
            &&& #[trigger] is_move(
                refiner,
                unit,
                start,
                driver,
                sink,
                move_driver,
                delays,
                step,
            )
            &&& #[trigger] is_lifted(refiner, unit, start, current, occupied, placed)
            &&& step.delay_on(current[step.column as int]) matches Some(limit) && exists|
                index: int,
            |
                {
                    &&& #[trigger] step.is_best(
                        current,
                        occupied,
                        placed,
                        distance as int,
                        limit,
                        index,
                    )
                    &&& unit_moved(refiner, unit, start, index, placement)
                }
        };
    let limit = step.delay_on(current[step.column as int])->0;
    let index = choose|index: int|
        {
            &&& #[trigger] step.is_best(
                current,
                occupied,
                placed,
                distance as int,
                limit,
                index,
            )
            &&& unit_moved(refiner, unit, start, index, placement)
        };
    (unit, step, current, occupied, placed, limit, index)
}

/// A move of one end of a connection makes the connection faster: its local delay in the
/// placement that comes back is less than in the one that was given.
pub proof fn a_connection_move_makes_it_faster(
    refiner: PlacementRefiner<'_>,
    start: Placement,
    driver: CellPinId,
    sink: CellPinId,
    move_driver: bool,
    delays: &[u32],
    distance: u64,
    placement: Placement,
)
    requires
        refiner.wf(),
        connection_outcome(
            refiner,
            start,
            driver,
            sink,
            move_driver,
            delays,
            distance,
            Ok(Some(placement)),
        ),
    ensures
        bound_delay(refiner, start.bindings@, (driver, sink), delays) matches Some(known)
            && bound_delay(refiner, placement.bindings@, (driver, sink), delays) matches Some(
            found,
        ) && found < known,
{
    let pins = refiner.graph.design.pins@;
    let moving = pins[if move_driver {
        driver.0 as int
    } else {
        sink.0 as int
    }].cell;
    let fixed = pins[if move_driver {
        sink.0 as int
    } else {
        driver.0 as int
    }].cell;
    let (unit, step, current, occupied, placed, limit, index) = lemma_connection_move(
        refiner,
        start,
        driver,
        sink,
        move_driver,
        delays,
        distance,
        placement,
    );
    let cells = refiner.units@[unit].cells@;
    let row = refiner.units@[unit].choices.row(index);
    lemma_current_row(refiner, unit, start, current, occupied, placed);
    assert(refiner.units@[unit].wf(refiner.graph, refiner.constraints));
    assert(step.improves(current, occupied, placed, distance as int, limit, index));
    assert(row.len() == cells.len());
    assert(start.bindings.len() == start.bindings@.len());
    let column = step.column as int;
    lemma_without_cells(all_placed(start.bindings@), cells);
    lemma_with_row(placed, cells, row);
    let later = placement.bindings@;
    assert(all_placed(later).len() == later.len());
    assert(fixed.0 < refiner.graph.design.cells@.len());
    assert(moving.0 < refiner.graph.design.cells@.len());
    assert(CellId(fixed.0 as int as usize) == fixed);
    assert(cells[column] == moving);
    assert(all_placed(later)[cells[column].0 as int] == Some(row[column]));
    assert(all_placed(later)[fixed.0 as int] == Some(later[fixed.0 as int]));
    assert(all_placed(later)[moving.0 as int] == Some(later[moving.0 as int]));
    assert(all_placed(start.bindings@)[fixed.0 as int] == Some(start.bindings@[fixed.0 as int]));
    assert(placed[fixed.0 as int] == all_placed(start.bindings@)[fixed.0 as int]);
    assert(later[fixed.0 as int] == start.bindings@[fixed.0 as int]);
    assert(later[moving.0 as int] == row[column]);
    assert(current[column] == start.bindings@[moving.0 as int]);
}

} // verus!
