//! Where corridors are anchored, and what trees remember.

use vstd::prelude::*;

use crate::connection::{earliest_start, is_earliest_start};
use crate::growth_model::noted;
use crate::hold::{is_nearest_point, nearest_point, HoldProblem};
use crate::model::{Point, WireId};
use crate::ordered::{OrderedKey, OrderedSet};
use crate::refine_laws::tiles_between;
use crate::search::RouteQuery;

verus! {

/// Of some wires one arrives first.
proof fn lemma_has_earliest(query: RouteQuery<'_>, wires: Seq<WireId>) -> (start: WireId)
    requires
        wires.len() > 0,
    ensures
        is_earliest_start(query, wires.to_set(), start),
    decreases wires.len(),
{
    let points = query.metadata.wire_points@;
    let goal = points[query.goal.0 as int];
    let delays = query.tree_delays_ps@;
    let last = wires.last();
    assert(wires[wires.len() - 1] == last);
    assert(wires.to_set().contains(last));
    if wires.len() == 1 {
        assert forall|s: WireId| #[trigger] wires.to_set().contains(s) implies s == last by {
            let i = wires.index_of(s);
        }
        last
    } else {
        let rest = wires.drop_last();
        let best = lemma_has_earliest(query, rest);
        let i = rest.index_of(best);
        assert(wires[i] == best);
        assert(wires.to_set().contains(best));
        let near = points[last.0 as int].distance(goal);
        let far = points[best.0 as int].distance(goal);
        let wins = delays[last.0 as int] < delays[best.0 as int] || (delays[last.0 as int]
            == delays[best.0 as int] && (near < far || (near == far && last.0 <= best.0)));
        let start = if wins {
            last
        } else {
            best
        };
        assert forall|s: WireId| #[trigger] wires.to_set().contains(s) implies {
            let mine = points[start.0 as int].distance(goal);
            let theirs = points[s.0 as int].distance(goal);
            ||| delays[start.0 as int] < delays[s.0 as int]
            ||| delays[start.0 as int] == delays[s.0 as int] && mine < theirs
            ||| delays[start.0 as int] == delays[s.0 as int] && mine == theirs && start.0 <= s.0
        } by {
            let k = wires.index_of(s);
            if k < wires.len() - 1 {
                assert(rest[k] == s);
                assert(rest.to_set().contains(s));
            }
        }
        start
    }
}

/// The corridor of a timed connection is anchored at a tree wire that arrives no later
/// than any other, and of those that arrive with it stands no farther from the goal.
pub proof fn a_timing_corridor_is_anchored_at_the_earliest_wire(
    query: RouteQuery<'_>,
    starts: &OrderedSet<WireId>,
    other: WireId,
)
    requires
        starts.wf(),
        starts@.contains(other),
    ensures
        ({
            let start = earliest_start(query, starts@);
            let points = query.metadata.wire_points@;
            let goal = points[query.goal.0 as int];
            &&& starts@.contains(start)
            &&& query.tree_delays_ps@[start.0 as int] <= query.tree_delays_ps@[other.0 as int]
            &&& query.tree_delays_ps@[start.0 as int] == query.tree_delays_ps@[other.0 as int]
                ==> tiles_between(points[start.0 as int], goal) <= tiles_between(
                points[other.0 as int],
                goal,
            )
        }),
{
    let list = starts.ordered();
    lemma_same_set(starts);
    starts.membership(other);
    assert(list.len() > 0) by {
        let i = list.index_of(other);
    }
    let some = lemma_has_earliest(query, list);
    assert(is_earliest_start(query, starts@, some));
    let start = earliest_start(query, starts@);
    assert(is_earliest_start(query, starts@, start));
    assert(starts@.contains(other));
}

/// An ordered set lists its members.
proof fn lemma_same_set(set: &OrderedSet<WireId>)
    requires
        set.wf(),
    ensures
        set.ordered().to_set() == set@,
{
    assert forall|w: WireId| set.ordered().to_set().contains(w) == set@.contains(w) by {
        set.membership(w);
    }
    assert(set.ordered().to_set() =~= set@);
}

/// Of the tiles of some wires one is nearest.
proof fn lemma_has_nearest(query: RouteQuery<'_>, wires: Seq<WireId>) -> (point: Point)
    requires
        wires.len() > 0,
    ensures
        is_nearest_point(query, wires.to_set(), point),
    decreases wires.len(),
{
    let points = query.metadata.wire_points@;
    let goal = points[query.goal.0 as int];
    let last = wires.last();
    let here = points[last.0 as int];
    assert(wires[wires.len() - 1] == last);
    assert(wires.to_set().contains(last));
    if wires.len() == 1 {
        assert forall|s: WireId| #[trigger] wires.to_set().contains(s) implies s == last by {
            let i = wires.index_of(s);
        }
        here
    } else {
        let rest = wires.drop_last();
        let best = lemma_has_nearest(query, rest);
        let holder = choose|s: WireId| #[trigger]
            rest.to_set().contains(s) && points[s.0 as int] == best;
        let i = rest.index_of(holder);
        assert(wires[i] == holder);
        assert(wires.to_set().contains(holder));
        let wins = here.distance(goal) < best.distance(goal) || (here.distance(goal)
            == best.distance(goal) && here.rank() <= best.rank());
        let point = if wins {
            here
        } else {
            best
        };
        assert forall|s: WireId| #[trigger] wires.to_set().contains(s) implies {
            let there = points[s.0 as int];
            ||| point.distance(goal) < there.distance(goal)
            ||| point.distance(goal) == there.distance(goal) && point.rank() <= there.rank()
        } by {
            let k = wires.index_of(s);
            if k < wires.len() - 1 {
                assert(rest[k] == s);
                assert(rest.to_set().contains(s));
            }
        }
        point
    }
}

/// The corridor of a hold search is anchored at a tile of the tree than which none is
/// nearer to the goal.
pub proof fn a_hold_corridor_is_anchored_at_the_nearest_tile(
    query: RouteQuery<'_>,
    starts: &OrderedSet<WireId>,
    other: WireId,
)
    requires
        starts.wf(),
        starts@.contains(other),
    ensures
        ({
            let point = nearest_point(query, starts@);
            let points = query.metadata.wire_points@;
            let goal = points[query.goal.0 as int];
            &&& exists|s: WireId| #[trigger] starts@.contains(s) && points[s.0 as int] == point
            &&& tiles_between(point, goal) <= tiles_between(points[other.0 as int], goal)
        }),
{
    let list = starts.ordered();
    lemma_same_set(starts);
    starts.membership(other);
    assert(list.len() > 0) by {
        let i = list.index_of(other);
    }
    let some = lemma_has_nearest(query, list);
    assert(is_nearest_point(query, starts@, some));
    let point = nearest_point(query, starts@);
    assert(is_nearest_point(query, starts@, point));
    assert(starts@.contains(other));
}

/// A tree remembers the earliest arrival at each of its wires, and touches no other.
pub proof fn a_tree_remembers_the_earliest_arrival(
    arrivals: Seq<u64>,
    wire: WireId,
    arrival_ps: u64,
    other: int,
)
    requires
        wire.0 < arrivals.len(),
        0 <= other < arrivals.len(),
    ensures
        noted(arrivals, wire, arrival_ps).len() == arrivals.len(),
        noted(arrivals, wire, arrival_ps)[wire.0 as int] <= arrival_ps,
        noted(arrivals, wire, arrival_ps)[wire.0 as int] <= arrivals[wire.0 as int],
        noted(arrivals, wire, arrival_ps)[wire.0 as int] == arrival_ps || noted(
            arrivals,
            wire,
            arrival_ps,
        )[wire.0 as int] == arrivals[wire.0 as int],
        other != wire.0 ==> noted(arrivals, wire, arrival_ps)[other] == arrivals[other],
{
}

/// A hold search guesses one for every tile to go, and nothing under hard occupancy.
pub proof fn a_hold_search_guesses_the_tiles_to_go(
    problem: HoldProblem<'_>,
    wire: WireId,
    distance: int,
)
    requires
        0 <= distance <= u32::MAX,
    ensures
        problem.space.query.hard_occupancy is Some ==> problem.guess(wire, distance) == distance,
        problem.space.query.hard_occupancy is None ==> problem.guess(wire, distance) == distance
            + tiles_between(
            problem.space.query.metadata.wire_points@[wire.0 as int],
            problem.space.query.metadata.wire_points@[problem.space.query.goal.0 as int],
        ),
{
}

} // verus!
