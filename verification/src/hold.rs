//! Route search under a minimum arrival, for hold repair.

use vstd::prelude::*;

use crate::cost::{
    hold_bucket, hold_delay_bucket, routing_step_cost, timing_tree_cost, ROUTING_DELAY_QUANTUM_PS,
};
use crate::hold_course::{is_least, lemma_traces_unique, traces, HoldPoint};
use crate::model::{PipId, Point, WireId};
use crate::ordered::{OrderedKey, OrderedMap, OrderedSet};
use crate::queue::MinQueue;
use crate::routing_costs::RoutingCosts;
use crate::search::{
    blockers_grow, borders_corridor, pip_is_blocked, point_inside_corridor, routing_corridor,
    space_of, HardRoutingBlockers, RouteQuery, RoutingCorridor, SearchSpace, TIMING_ROUTE_MARGIN,
};

verus! {

/// A wire reached with an arrival in one delay bucket.
#[derive(Clone, Copy, Debug, PartialEq, Eq, PartialOrd, Ord, Hash, Structural)]
pub struct HoldRouteState {
    /// Reached wire.
    pub wire: WireId,
    /// Bucket of the arrival.
    pub bucket: u32,
}

impl OrderedKey for HoldRouteState {
    open spec fn rank(self) -> int {
        self.wire.0 * 0x1_0000_0000 + self.bucket
    }

    proof fn rank_is_injective(a: Self, b: Self) {
    }

    fn precedes(self, other: Self) -> (result: bool) {
        self.wire.0 < other.wire.0 || (self.wire.0 == other.wire.0 && self.bucket < other.bucket)
    }
}

/// Best known way into a state.
#[derive(Clone, Copy, Debug, PartialEq, Eq)]
pub struct HoldRouteVisit {
    /// Cost of the route.
    pub distance: u64,
    /// Arrival of the route.
    pub arrival_ps: u64,
    /// State before this one and the PIP between them; none at a tree wire.
    pub previous: Option<(HoldRouteState, PipId)>,
}

/// One frontier entry: entries leave the queue by estimate, then distance,
/// then arrival, then state.
#[derive(Clone, Copy, Debug, PartialEq, Eq, Structural)]
pub struct HoldQueueEntry {
    /// Predicted cost of a whole route through the state.
    pub estimate: u64,
    /// Cost of the route up to the state.
    pub distance: u64,
    /// Arrival at the state.
    pub arrival_ps: u64,
    /// Reached state.
    pub state: HoldRouteState,
}

impl OrderedKey for HoldQueueEntry {
    open spec fn rank(self) -> int {
        ((self.estimate * 0x1_0000_0000_0000_0000 + self.distance) * 0x1_0000_0000_0000_0000
            + self.arrival_ps) * 0x1_0000_0000_0000_0000_0000_0000 + self.state.rank()
    }

    proof fn rank_is_injective(a: Self, b: Self) {
    }

    fn precedes(self, other: Self) -> (result: bool) {
        if self.estimate != other.estimate {
            self.estimate < other.estimate
        } else if self.distance != other.distance {
            self.distance < other.distance
        } else if self.arrival_ps != other.arrival_ps {
            self.arrival_ps < other.arrival_ps
        } else {
            self.state.precedes(other.state)
        }
    }
}

/// A hold-routing problem: the space, the delays, and the minimum arrival.
pub struct HoldProblem<'a> {
    /// Wires and hops that the search may use.
    pub space: SearchSpace<'a>,
    /// Delays of every PIP.
    pub costs: RoutingCosts,
    /// Arrival that the goal must not undercut.
    pub minimum_arrival_ps: int,
}

impl<'a> HoldProblem<'a> {
    /// Minimum delay of a PIP.
    pub open spec fn delay(&self, pip: PipId) -> int {
        self.costs.pip_min_delays_ps@[pip.0 as int] as int
    }

    /// Arrival after one more PIP.
    pub open spec fn arrive(&self, arrival_ps: int, pip: PipId) -> int {
        crate::cost::clip_u64(arrival_ps + self.delay(pip))
    }

    /// Arrival of a walk at one of its wires.
    pub open spec fn walk_arrival(&self, wires: Seq<WireId>, pips: Seq<PipId>, index: int) -> int
        decreases index,
    {
        if index <= 0 {
            self.space.query.tree_delays_ps@[wires[0].0 as int] as int
        } else {
            self.arrive(self.walk_arrival(wires, pips, index - 1), pips[index - 1])
        }
    }

    /// State of a wire reached at one arrival.
    pub open spec fn state(&self, wire: WireId, arrival_ps: int) -> HoldRouteState {
        HoldRouteState { wire, bucket: hold_bucket(arrival_ps, self.minimum_arrival_ps) as u32 }
    }

    /// Every tree wire that the search begins at already arrives late enough.
    pub open spec fn is_late(&self) -> bool {
        forall|w: WireId| #[trigger]
            self.space.seed(w) ==> self.space.query.tree_delays_ps@[w.0 as int]
                >= self.minimum_arrival_ps
    }

    /// The occupancy is hard, so that states leave the queue in order of their cost.
    pub open spec fn is_hard(&self) -> bool {
        self.space.query.hard_occupancy is Some
    }

    /// The tables cover the device.
    pub open spec fn wf(&self) -> bool {
        &&& self.space.query.wf()
        &&& self.costs.pip_min_delays_ps@.len() == self.space.query.graph.device.pips@.len()
        &&& 0 <= self.minimum_arrival_ps <= u64::MAX
        &&& self.space.starts.subset_of(self.space.closed_wires)
        &&& forall|w: WireId| #[trigger]
            self.space.starts.contains(w) ==> w.0 < self.space.query.graph.device.wires@.len()
                && w.0 < self.space.query.tree_delays_ps@.len()
    }
}

/// A chain of previous states leads to a tree wire in some number of steps.
pub open spec fn chain_is(
    visits: Map<HoldRouteState, HoldRouteVisit>,
    state: HoldRouteState,
    depth: nat,
) -> bool
    decreases depth,
{
    &&& visits.contains_key(state)
    &&& match visits[state].previous {
        None => depth == 0,
        Some(link) => depth > 0 && chain_is(visits, link.0, (depth - 1) as nat),
    }
}

/// What a hold search knows between two steps.
pub struct HoldProgress {
    /// Best known way into each reached state.
    pub visits: Map<HoldRouteState, HoldRouteVisit>,
    /// States whose hops have been followed.
    pub expanded: Set<HoldRouteState>,
    /// Greatest cost of a state that has left the queue.
    pub floor: int,
}

impl HoldProgress {
    /// Frontier entry of a reached state under its present label.
    pub open spec fn entry_matches(&self, entry: HoldQueueEntry, state: HoldRouteState) -> bool {
        &&& entry.state == state
        &&& entry.distance == self.visits[state].distance
        &&& entry.arrival_ps == self.visits[state].arrival_ps
    }

    /// The state is a seed, or a hop of the space leads to it from a reached state.
    pub open spec fn linked(&self, problem: HoldProblem<'_>, state: HoldRouteState) -> bool {
        let visit = self.visits[state];
        &&& state.wire.0 < problem.space.query.graph.device.wires@.len()
        &&& state == problem.state(state.wire, visit.arrival_ps as int)
        &&& match visit.previous {
            None => {
                &&& problem.space.seed(state.wire)
                &&& visit.arrival_ps == problem.space.query.tree_delays_ps@[state.wire.0 as int]
            },
            Some(link) => {
                &&& self.visits.contains_key(link.0)
                &&& problem.space.hop(link.0.wire, link.1, state.wire)
                &&& self.visits[link.0].distance <= visit.distance
                &&& problem.is_hard() ==> self.visits[link.0].distance <= self.floor
                    && visit.arrival_ps == problem.arrive(self.visits[link.0].arrival_ps as int, link.1)
            },
        }
    }

    /// The chain of previous states ends at a tree wire.
    pub open spec fn anchored(&self, state: HoldRouteState) -> bool {
        exists|depth: nat| chain_is(self.visits, state, depth)
    }

    /// Where every start is late, every hop of an expanded state leads to a reached state.
    pub open spec fn followed(
        &self,
        problem: HoldProblem<'_>,
        state: HoldRouteState,
        index: int,
    ) -> bool {
        let hop = problem.space.query.graph.device.neighbors@[state.wire.0 as int]@[index];
        problem.is_late() && problem.space.hop(state.wire, hop.1, hop.0)
            ==> self.visits.contains_key(HoldRouteState { wire: hop.0, bucket: state.bucket })
    }

    /// The first hops of a state have been followed.
    pub open spec fn all_followed(
        &self,
        problem: HoldProblem<'_>,
        state: HoldRouteState,
        count: int,
    ) -> bool {
        forall|index: int| 0 <= index < count ==> #[trigger] self.followed(problem, state, index)
    }

    /// Number of hops of a state.
    pub open spec fn hop_count(&self, problem: HoldProblem<'_>, state: HoldRouteState) -> int {
        problem.space.query.graph.device.neighbors@[state.wire.0 as int]@.len() as int
    }

    /// Everything that holds between two steps.
    pub open spec fn sound(&self, problem: HoldProblem<'_>) -> bool {
        &&& problem.wf()
        &&& forall|s: HoldRouteState|
            self.visits.contains_key(s) ==> #[trigger] self.linked(problem, s)
        &&& forall|s: HoldRouteState|
            self.visits.contains_key(s) ==> #[trigger] self.anchored(s)
        &&& forall|s: HoldRouteState| #[trigger]
            self.expanded.contains(s) ==> self.visits.contains_key(s)
        &&& problem.is_late() ==> forall|s: HoldRouteState| #[trigger]
            self.visits.contains_key(s) ==> self.visits[s].arrival_ps >= problem.minimum_arrival_ps
    }

    /// Every reached state waits in the queue or has been expanded, except one.
    pub open spec fn covered(
        &self,
        queue: vstd::multiset::Multiset<HoldQueueEntry>,
        except: Option<HoldRouteState>,
    ) -> bool {
        forall|s: HoldRouteState| #[trigger]
            self.visits.contains_key(s) && except != Some(s) ==> self.expanded.contains(s)
                || self.waits(queue, s)
    }

    /// The state waits in the queue under its present label.
    pub open spec fn waits(
        &self,
        queue: vstd::multiset::Multiset<HoldQueueEntry>,
        state: HoldRouteState,
    ) -> bool {
        exists|e: HoldQueueEntry| #[trigger] queue.contains(e) && self.entry_matches(e, state)
    }

    /// Every queued entry names a reached state, and a hard search has nothing below the floor.
    pub open spec fn queue_ok(
        &self,
        problem: HoldProblem<'_>,
        queue: vstd::multiset::Multiset<HoldQueueEntry>,
    ) -> bool {
        forall|e: HoldQueueEntry| #[trigger]
            queue.contains(e) ==> self.visits.contains_key(e.state) && (problem.is_hard()
                ==> e.estimate == e.distance && e.distance >= self.floor)
    }

    /// Where every start is late, expanded states are away from the goal and fully followed.
    pub open spec fn closed_under_hops(&self, problem: HoldProblem<'_>) -> bool {
        forall|s: HoldRouteState| #[trigger]
            self.expanded.contains(s) && problem.is_late() ==> s.wire != problem.space.query.goal
                && self.all_followed(problem, s, self.hop_count(problem, s))
    }

    /// Every seed is a reached state.
    pub open spec fn seeded(&self, problem: HoldProblem<'_>) -> bool {
        forall|w: WireId| #[trigger]
            problem.space.seed(w) ==> self.visits.contains_key(
                problem.state(w, problem.space.query.tree_delays_ps@[w.0 as int] as int),
            )
    }

    /// What a state still has to give: its label, or more than any label.
    pub open spec fn potential_at(&self, state: HoldRouteState) -> nat {
        if self.visits.contains_key(state) {
            (self.visits[state].distance * 0x1_0000_0000_0000_0000 + (u64::MAX
                - self.visits[state].arrival_ps)) as nat
        } else {
            (0x1_0000_0000_0000_0000 * 0x1_0000_0000_0000_0000) as nat
        }
    }

    /// State of one rank.
    pub open spec fn state_of(rank: int) -> HoldRouteState {
        HoldRouteState {
            wire: WireId((rank / 0x1_0000_0000) as usize),
            bucket: (rank % 0x1_0000_0000) as u32,
        }
    }

    /// Sum of what the first states still have to give.
    pub open spec fn potential(&self, count: int) -> nat
        decreases count,
    {
        if count <= 0 {
            0
        } else {
            self.potential(count - 1) + self.potential_at(Self::state_of(count - 1))
        }
    }

    /// Number of states over a number of wires.
    pub open spec fn state_count(problem: HoldProblem<'_>) -> int {
        problem.space.query.graph.device.wires@.len() as int * 0x1_0000_0000
    }

    /// Replacing one label by a better one lowers the sum.
    proof fn lemma_potential(
        before: HoldProgress,
        after: HoldProgress,
        state: HoldRouteState,
        count: int,
        wires: int,
    )
        requires
            0 <= count <= wires * 0x1_0000_0000,
            wires < u32::MAX,
            forall|s: HoldRouteState|
                s != state ==> #[trigger] after.potential_at(s) == before.potential_at(s),
            after.potential_at(state) < before.potential_at(state),
        ensures
            state.rank() < count ==> after.potential(count) < before.potential(count),
            state.rank() >= count ==> after.potential(count) == before.potential(count),
        decreases count,
    {
        if count > 0 {
            Self::lemma_potential(before, after, state, count - 1, wires);
            let s = Self::state_of(count - 1);
            assert(s.rank() == count - 1);
            if s != state {
                if s.rank() == state.rank() {
                    HoldRouteState::rank_is_injective(s, state);
                }
                assert(after.potential_at(s) == before.potential_at(s));
            }
        }
    }

    /// The chain of the new parent does not pass the state that is hung elsewhere.
    proof fn lemma_chain_avoids(
        &self,
        problem: HoldProblem<'_>,
        state: HoldRouteState,
        depth: nat,
        moved: HoldRouteState,
        visit: HoldRouteVisit,
    )
        requires
            self.sound(problem),
            chain_is(self.visits, state, depth),
            self.visits.contains_key(moved) ==> self.visits[state].distance
                < self.visits[moved].distance,
        ensures
            chain_is(self.visits.insert(moved, visit), state, depth),
        decreases depth,
    {
        if let Some(link) = self.visits[state].previous {
            assert(self.linked(problem, state));
            self.lemma_chain_avoids(problem, link.0, (depth - 1) as nat, moved, visit);
        }
    }

    /// Hanging one state elsewhere keeps every chain finite.
    proof fn lemma_rehang(
        visits: Map<HoldRouteState, HoldRouteVisit>,
        state: HoldRouteState,
        depth: nat,
        moved: HoldRouteState,
        visit: HoldRouteVisit,
        moved_depth: nat,
    ) -> (new_depth: nat)
        requires
            chain_is(visits, state, depth),
            chain_is(visits.insert(moved, visit), moved, moved_depth),
        ensures
            chain_is(visits.insert(moved, visit), state, new_depth),
        decreases depth,
    {
        if state == moved {
            moved_depth
        } else {
            match visits[state].previous {
                None => 0,
                Some(link) => {
                    let up = Self::lemma_rehang(
                        visits,
                        link.0,
                        (depth - 1) as nat,
                        moved,
                        visit,
                        moved_depth,
                    );
                    (up + 1) as nat
                },
            }
        }
    }

    /// A chain has one length.
    proof fn lemma_chain_unique(
        visits: Map<HoldRouteState, HoldRouteVisit>,
        state: HoldRouteState,
        a: nat,
        b: nat,
    )
        requires
            chain_is(visits, state, a),
            chain_is(visits, state, b),
        ensures
            a == b,
        decreases a,
    {
        if let Some(link) = visits[state].previous {
            Self::lemma_chain_unique(visits, link.0, (a - 1) as nat, (b - 1) as nat);
        }
    }

    /// Giving one state a better label by a hop from the state under expansion keeps the
    /// search sound.
    proof fn lemma_relaxed(
        &self,
        problem: HoldProblem<'_>,
        queue: vstd::multiset::Multiset<HoldQueueEntry>,
        from: HoldRouteState,
        pip: PipId,
        to: HoldRouteState,
        visit: HoldRouteVisit,
        entry: HoldQueueEntry,
    ) -> (after: HoldProgress)
        requires
            self.sound(problem),
            self.covered(queue, Some(from)),
            self.queue_ok(problem, queue),
            self.closed_under_hops(problem),
            self.seeded(problem),
            self.visits.contains_key(from),
            problem.is_hard() ==> self.visits[from].distance == self.floor,
            problem.space.hop(from.wire, pip, to.wire),
            visit.previous == Some((from, pip)),
            visit.arrival_ps == problem.arrive(self.visits[from].arrival_ps as int, pip),
            to == problem.state(to.wire, visit.arrival_ps as int),
            self.visits[from].distance < visit.distance || (visit.distance == u64::MAX
                && self.visits[from].distance == u64::MAX),
            self.visits.contains_key(to) ==> visit.distance < self.visits[to].distance || (
            visit.distance == self.visits[to].distance && visit.distance < u64::MAX
                && visit.arrival_ps > self.visits[to].arrival_ps),
            entry.state == to,
            entry.distance == visit.distance,
            entry.arrival_ps == visit.arrival_ps,
            problem.is_hard() ==> entry.estimate == entry.distance,
        ensures
            after == (HoldProgress { visits: self.visits.insert(to, visit), ..*self }),
            after.sound(problem),
            after.covered(queue.insert(entry), Some(from)),
            after.queue_ok(problem, queue.insert(entry)),
            after.closed_under_hops(problem),
            after.seeded(problem),
            from != to,
            forall|count: int|
                #![trigger self.all_followed(problem, from, count)]
                self.all_followed(problem, from, count) ==> after.all_followed(
                    problem,
                    from,
                    count,
                ),
            after.potential(Self::state_count(problem)) < self.potential(
                Self::state_count(problem),
            ),
    {
        broadcast use vstd::multiset::group_multiset_axioms;

        let after = HoldProgress { visits: self.visits.insert(to, visit), ..*self };
        let device = problem.space.query.graph.device;
        device.lemma_listed(from.wire, pip, to.wire);
        assert(self.linked(problem, from) && self.anchored(from));
        let depth = choose|depth: nat| chain_is(self.visits, from, depth);
        self.lemma_chain_avoids(problem, from, depth, to, visit);
        assert(chain_is(after.visits, to, (depth + 1) as nat));
        assert forall|s: HoldRouteState| after.visits.contains_key(s) implies #[trigger] after.linked(
            problem,
            s,
        ) by {
            if s != to {
                assert(self.visits.contains_key(s));
                assert(self.linked(problem, s));
            }
        }
        assert forall|s: HoldRouteState| after.visits.contains_key(s) implies #[trigger] after.anchored(
            s,
        ) by {
            if s != to {
                assert(self.visits.contains_key(s));
                assert(self.anchored(s));
                let old_depth = choose|depth: nat| chain_is(self.visits, s, depth);
                let new_depth = Self::lemma_rehang(
                    self.visits,
                    s,
                    old_depth,
                    to,
                    visit,
                    (depth + 1) as nat,
                );
                assert(after.anchored(s));
            }
        }
        if problem.is_late() {
            assert(problem.delay(pip) >= 0);
            assert(self.visits[from].arrival_ps >= problem.minimum_arrival_ps);
        }
        assert forall|s: HoldRouteState| #[trigger]
            after.visits.contains_key(s) && Some(from) != Some(s) implies after.expanded.contains(s)
            || after.waits(queue.insert(entry), s) by {
            if s == to {
                assert(queue.insert(entry).contains(entry) && after.entry_matches(entry, s));
            } else {
                assert(self.visits.contains_key(s));
                if self.waits(queue, s) {
                    let e = choose|e: HoldQueueEntry| #[trigger]
                        queue.contains(e) && self.entry_matches(e, s);
                    assert(queue.insert(entry).contains(e) && after.entry_matches(e, s));
                }
            }
        }
        assert forall|e: HoldQueueEntry| #[trigger] queue.insert(entry).contains(e) implies after.visits.contains_key(
            e.state,
        ) && (problem.is_hard() ==> e.estimate == e.distance && e.distance >= after.floor) by {
            if e != entry {
                assert(queue.contains(e));
            }
        }
        assert forall|s: HoldRouteState, count: int| #[trigger]
            self.all_followed(problem, s, count) implies after.all_followed(problem, s, count) by {
            assert forall|index: int| 0 <= index < count implies #[trigger] after.followed(
                problem,
                s,
                index,
            ) by {
                assert(self.followed(problem, s, index));
            }
        }
        assert(after.closed_under_hops(problem)) by {
            assert forall|s: HoldRouteState| #[trigger]
                after.expanded.contains(s) && problem.is_late() implies s.wire
                != problem.space.query.goal && after.all_followed(
                problem,
                s,
                after.hop_count(problem, s),
            ) by {
                assert(self.expanded.contains(s));
                assert(self.all_followed(problem, s, self.hop_count(problem, s)));
            }
        }
        Self::lemma_potential(
            *self,
            after,
            to,
            Self::state_count(problem),
            device.wires@.len() as int,
        );
        after
    }
}

/// The tree point is the nearest to the goal; of two equally near, the least.
pub open spec fn is_nearest_point(
    query: RouteQuery<'_>,
    starts: Set<WireId>,
    point: Point,
) -> bool {
    let points = query.metadata.wire_points@;
    let goal = points[query.goal.0 as int];
    &&& exists|s: WireId| #[trigger] starts.contains(s) && points[s.0 as int] == point
    &&& forall|s: WireId| #[trigger]
        starts.contains(s) ==> {
            let other = points[s.0 as int];
            ||| point.distance(goal) < other.distance(goal)
            ||| point.distance(goal) == other.distance(goal) && point.rank() <= other.rank()
        }
}

/// The tree point nearest to the goal.
pub open spec fn nearest_point(query: RouteQuery<'_>, starts: Set<WireId>) -> Point {
    choose|point: Point| is_nearest_point(query, starts, point)
}

/// Corridor of a hold search: hold repair is local, so the search keeps near the box of the
/// goal and the nearest tree wire.
pub open spec fn hold_corridor(query: RouteQuery<'_>, starts: Set<WireId>) -> RoutingCorridor {
    crate::search::corridor_between(
        nearest_point(query, starts),
        query.metadata.wire_points@[query.goal.0 as int],
        query.graph.device,
        TIMING_ROUTE_MARGIN as int,
    )
}

/// The tree point nearest to the goal.
fn find_nearest_point(query: &RouteQuery<'_>, starts: &OrderedSet<WireId>) -> (result: Point)
    requires
        query.wf(),
        starts.wf(),
        starts.ordered().len() > 0,
        forall|w: WireId| #[trigger] starts@.contains(w) ==> w.0 < query.graph.device.wires@.len(),
    ensures
        result == nearest_point(*query, starts@),
{
    let goal = query.metadata.wire_points[query.goal.0];
    let mut best = query.metadata.wire_points[starts.at(0).0];
    let mut best_distance: u64 = best.manhattan(goal);
    let mut index: usize = 1;
    proof {
        assert(starts@.contains(starts.ordered()[0]));
    }
    while index < starts.len()
        invariant
            1 <= index <= starts.ordered().len(),
            query.wf(),
            starts.wf(),
            goal == query.metadata.wire_points@[query.goal.0 as int],
            best_distance == best.distance(goal),
            forall|w: WireId| #[trigger]
                starts@.contains(w) ==> w.0 < query.graph.device.wires@.len(),
            exists|s: WireId| #[trigger]
                starts@.contains(s) && query.metadata.wire_points@[s.0 as int] == best,
            forall|i: int|
                0 <= i < index ==> {
                    let other =
                        query.metadata.wire_points@[(#[trigger] starts.ordered()[i]).0 as int];
                    ||| best.distance(goal) < other.distance(goal)
                    ||| best.distance(goal) == other.distance(goal) && best.rank() <= other.rank()
                },
        decreases starts.ordered().len() - index,
    {
        let point = query.metadata.wire_points[starts.at(index).0];
        let distance: u64 = point.manhattan(goal);
        if distance < best_distance || (distance == best_distance && point.precedes(best)) {
            best = point;
            best_distance = distance;
        }
        index = index + 1;
    }
    proof {
        assert forall|s: WireId| #[trigger] starts@.contains(s) implies {
            let other = query.metadata.wire_points@[s.0 as int];
            ||| best.distance(goal) < other.distance(goal)
            ||| best.distance(goal) == other.distance(goal) && best.rank() <= other.rank()
        } by {
            starts.membership(s);
            let i = starts.ordered().index_of(s);
            assert(starts.ordered()[i] == s);
        }
        assert(is_nearest_point(*query, starts@, best));
        let chosen = nearest_point(*query, starts@);
        assert(is_nearest_point(*query, starts@, chosen));
        let s = choose|s: WireId| #[trigger]
            starts@.contains(s) && query.metadata.wire_points@[s.0 as int] == best;
        let t = choose|t: WireId| #[trigger]
            starts@.contains(t) && query.metadata.wire_points@[t.0 as int] == chosen;
        assert(best.rank() == chosen.rank());
        Point::rank_is_injective(best, chosen);
    }
    best
}

/// The problem that a hold search solves.
pub open spec fn hold_problem<'a>(
    query: RouteQuery<'a>,
    starts: &OrderedSet<WireId>,
    costs: &RoutingCosts,
    minimum_arrival_ps: u64,
) -> HoldProblem<'a> {
    HoldProblem {
        space: space_of(query, starts, None, Some(hold_corridor(query, starts@))),
        costs: *costs,
        minimum_arrival_ps: minimum_arrival_ps as int,
    }
}

/// Whether a route visits no wire twice.
pub(crate) fn visits_once(wires: &Vec<WireId>) -> (result: bool)
    ensures
        result == wires@.no_duplicates(),
{
    let mut index: usize = 0;
    let mut seen: OrderedSet<WireId> = OrderedSet::new();
    while index < wires.len()
        invariant
            index <= wires@.len(),
            seen.wf(),
            forall|w: WireId| #[trigger] seen@.contains(w) <==> wires@.take(index as int).contains(w),
            wires@.take(index as int).no_duplicates(),
        decreases wires@.len() - index,
    {
        let ghost before = wires@.take(index as int);
        let wire = wires[index];
        if !seen.insert(wire) {
            proof {
                assert(before.contains(wire));
                let k = before.index_of(wire);
                assert(wires@[k] == wires@[index as int]);
                assert(!wires@.no_duplicates());
            }
            return false;
        }
        proof {
            let after = wires@.take(index + 1);
            assert(after =~= before.push(wire));
            assert forall|w: WireId| #[trigger] seen@.contains(w) <==> after.contains(w) by {
                if before.contains(w) {
                    let k = before.index_of(w);
                    assert(after[k] == w);
                }
                assert(after[index as int] == wire);
                if after.contains(w) && w != wire {
                    let k = after.index_of(w);
                    assert(before[k] == w);
                }
            }
            assert forall|a: int, b: int|
                0 <= a < after.len() && 0 <= b < after.len() && a != b implies after[a]
                != after[b] by {
                if a < index && b < index {
                    assert(before[a] != before[b]);
                } else if a < index {
                    assert(before.contains(before[a]));
                } else {
                    assert(before.contains(before[b]));
                }
            }
        }
        index = index + 1;
    }
    assert(wires@.take(index as int) =~= wires@);
    true
}

/// Route of a reached state, from the state back to the tree.
fn reconstruct_hold_path(
    goal_state: HoldRouteState,
    visits: &OrderedMap<HoldRouteState, HoldRouteVisit>,
    Ghost(problem): Ghost<HoldProblem<'_>>,
    Ghost(progress): Ghost<HoldProgress>,
) -> (result: (Vec<WireId>, Vec<PipId>))
    requires
        visits.wf(),
        progress.visits == visits@,
        progress.sound(problem),
        visits@.contains_key(goal_state),
    ensures
        problem.space.is_walk(result.0@.reverse(), result.1@.reverse()),
        result.0@.reverse().last() == goal_state.wire,
        problem.is_hard() ==> problem.walk_arrival(
            result.0@.reverse(),
            result.1@.reverse(),
            result.1@.len() as int,
        ) == visits@[goal_state].arrival_ps,
        problem.is_late() ==> result.0@.no_duplicates(),
        traces(visits@, goal_state, result.0@, result.1@),
{
    let mut state = goal_state;
    let mut wires: Vec<WireId> = Vec::new();
    let mut pips: Vec<PipId> = Vec::new();
    let ghost mut states: Seq<HoldRouteState> = seq![goal_state];
    wires.push(state.wire);
    proof {
        assert(progress.anchored(goal_state));
    }
    let ghost depth = choose|depth: nat| chain_is(visits@, goal_state, depth);
    loop
        invariant
            visits.wf(),
            progress.visits == visits@,
            progress.sound(problem),
            visits@.contains_key(state),
            states.len() == wires@.len(),
            wires@.len() == pips@.len() + 1,
            states.last() == state,
            states[0] == goal_state,
            pips@.len() <= depth,
            forall|i: int|
                0 <= i < states.len() ==> {
                    &&& chain_is(visits@, #[trigger] states[i], (depth - i) as nat)
                    &&& wires@[i] == states[i].wire
                },
            forall|i: int|
                0 <= i < pips@.len() ==> visits@[states[i]].previous == Some(
                    (states[i + 1], #[trigger] pips@[i]),
                ),
        ensures
            visits@.contains_key(state),
            states.len() == wires@.len(),
            wires@.len() == pips@.len() + 1,
            states.last() == state,
            states[0] == goal_state,
            visits@[state].previous is None,
            forall|i: int|
                0 <= i < states.len() ==> {
                    &&& chain_is(visits@, #[trigger] states[i], (depth - i) as nat)
                    &&& wires@[i] == states[i].wire
                },
            forall|i: int|
                0 <= i < pips@.len() ==> visits@[states[i]].previous == Some(
                    (states[i + 1], #[trigger] pips@[i]),
                ),
        decreases depth - pips@.len(),
    {
        assert(chain_is(visits@, states[states.len() - 1], (depth - (states.len() - 1)) as nat));
        let visit = match visits.get(state) {
            Some(visit) => *visit,
            None => {
                assert(false);
                break ;
            },
        };
        assert(progress.linked(problem, state));
        match visit.previous {
            None => {
                break ;
            },
            Some(link) => {
                pips.push(link.1);
                state = link.0;
                wires.push(state.wire);
                proof {
                    states = states.push(state);
                }
            },
        }
    }
    proof {
        let forward = wires@.reverse();
        let hops = pips@.reverse();
        let last = pips@.len() as int;
        assert(forward[0] == states[last].wire);
        assert(progress.linked(problem, state));
        assert forall|i: int| 0 <= i < hops.len() implies problem.space.hop(
            forward[i],
            #[trigger] hops[i],
            forward[i + 1],
        ) by {
            let k = last - 1 - i;
            assert(chain_is(visits@, states[k], (depth - k) as nat));
            assert(progress.linked(problem, states[k]));
            assert(forward[i + 1] == wires@[k]);
            assert(forward[i] == wires@[k + 1]);
            assert(states[k + 1].wire == wires@[k + 1]);
        }
        assert(forward[last] == states[0].wire);
        assert forall|i: int| 0 <= i < states.len() implies visits@.contains_key(
            #[trigger] states[i],
        ) by {
            assert(chain_is(visits@, states[i], (depth - i) as nat));
        }
        lemma_states_trace(visits@, states, wires@, pips@, 0);
        assert(wires@.skip(0) =~= wires@);
        assert(pips@.skip(0) =~= pips@);
        if problem.is_hard() {
            lemma_trace_arrival(problem, progress, states, wires@, pips@, last);
        }
        if problem.is_late() {
            assert forall|a: int, b: int|
                0 <= a < wires@.len() && 0 <= b < wires@.len() && a != b implies wires@[a]
                != wires@[b] by {
                if wires@[a] == wires@[b] {
                    assert(chain_is(visits@, states[a], (depth - a) as nat));
                    assert(chain_is(visits@, states[b], (depth - b) as nat));
                    assert(progress.linked(problem, states[a]));
                    assert(progress.linked(problem, states[b]));
                    assert(states[a] == states[b]);
                    HoldProgress::lemma_chain_unique(
                        visits@,
                        states[a],
                        (depth - a) as nat,
                        (depth - b) as nat,
                    );
                }
            }
        }
    }
    (wires, pips)
}

/// States that follow each other trace a way back.
proof fn lemma_states_trace(
    visits: Map<HoldRouteState, HoldRouteVisit>,
    states: Seq<HoldRouteState>,
    wires: Seq<WireId>,
    pips: Seq<PipId>,
    index: int,
)
    requires
        states.len() == wires.len(),
        wires.len() == pips.len() + 1,
        forall|i: int| 0 <= i < states.len() ==> wires[i] == (#[trigger] states[i]).wire,
        forall|i: int| 0 <= i < states.len() ==> visits.contains_key(#[trigger] states[i]),
        forall|i: int|
            0 <= i < pips.len() ==> visits[states[i]].previous == Some(
                (states[i + 1], #[trigger] pips[i]),
            ),
        visits[states.last()].previous is None,
        0 <= index < states.len(),
    ensures
        traces(visits, states[index], wires.skip(index), pips.skip(index)),
    decreases states.len() - index,
{
    let rest = wires.skip(index);
    let hops = pips.skip(index);
    assert(rest[0] == wires[index]);
    if index < pips.len() {
        lemma_states_trace(visits, states, wires, pips, index + 1);
        assert(hops[0] == pips[index]);
        assert(rest.skip(1) =~= wires.skip(index + 1));
        assert(hops.skip(1) =~= pips.skip(index + 1));
    } else {
        assert(states[index] == states.last());
    }
}

/// In a hard search the arrival of a traced route is the label of each of its states.
proof fn lemma_trace_arrival(
    problem: HoldProblem<'_>,
    progress: HoldProgress,
    states: Seq<HoldRouteState>,
    wires: Seq<WireId>,
    pips: Seq<PipId>,
    index: int,
)
    requires
        progress.sound(problem),
        problem.is_hard(),
        states.len() == wires.len(),
        wires.len() == pips.len() + 1,
        forall|i: int| 0 <= i < states.len() ==> wires[i] == (#[trigger] states[i]).wire,
        forall|i: int|
            0 <= i < states.len() ==> progress.visits.contains_key(#[trigger] states[i]),
        forall|i: int|
            0 <= i < pips.len() ==> progress.visits[states[i]].previous == Some(
                (states[i + 1], #[trigger] pips[i]),
            ),
        progress.visits[states.last()].previous is None,
        0 <= index <= pips.len(),
    ensures
        problem.walk_arrival(wires.reverse(), pips.reverse(), index)
            == progress.visits[states[pips.len() - index]].arrival_ps,
    decreases index,
{
    let forward = wires.reverse();
    let hops = pips.reverse();
    let k = pips.len() - index;
    assert(progress.linked(problem, states[k]));
    if index > 0 {
        lemma_trace_arrival(problem, progress, states, wires, pips, index - 1);
        assert(hops[index - 1] == pips[k]);
    } else {
        assert(forward[0] == wires[k]);
    }
}

/// Reach of a hold search: the states with their labels, and those still to be expanded.
struct HoldSearch {
    visits: OrderedMap<HoldRouteState, HoldRouteVisit>,
    queue: MinQueue<HoldQueueEntry>,
}

impl HoldSearch {
    /// The tables are ordered and hold what the progress says.
    spec fn wf(&self, problem: HoldProblem<'_>, progress: HoldProgress) -> bool {
        &&& self.visits.wf()
        &&& self.queue.wf()
        &&& progress.visits == self.visits@
        &&& progress.sound(problem)
        &&& progress.queue_ok(problem, self.queue@)
        &&& progress.closed_under_hops(problem)
    }

    /// What the search has reached and what waits.
    spec fn point(&self) -> HoldPoint {
        HoldPoint { visits: self.visits@, queue: self.queue@ }
    }

    /// Reaches every tree wire from which the search can enter its corridor.
    fn seed_starts(
        query: &RouteQuery<'_>,
        starts: &OrderedSet<WireId>,
        minimum_arrival_ps: u64,
        corridor: RoutingCorridor,
        Ghost(problem): Ghost<HoldProblem<'_>>,
    ) -> (result: (HoldSearch, Ghost<HoldProgress>))
        requires
            problem.wf(),
            problem.space.query == *query,
            problem.space.starts == starts@,
            problem.space.corridor == Some(corridor),
            problem.minimum_arrival_ps == minimum_arrival_ps,
            starts.wf(),
        ensures
            result.0.wf(problem, result.1@),
            result.1@.covered(result.0.queue@, None),
            result.1@.seeded(problem),
            result.0.point() == problem.sown(starts.ordered(), starts.ordered().len() as int),
    {
        broadcast use vstd::multiset::group_multiset_axioms;

        let goal_point = query.metadata.wire_points[query.goal.0];
        let mut search = HoldSearch { visits: OrderedMap::new(), queue: MinQueue::new() };
        let ghost mut progress = HoldProgress {
            visits: Map::empty(),
            expanded: Set::empty(),
            floor: 0,
        };
        let mut index: usize = 0;
        while index < starts.len()
            invariant
                index <= starts.ordered().len(),
                search.wf(problem, progress),
                search.point() == problem.sown(starts.ordered(), index as int),
                progress.covered(search.queue@, None),
                progress.expanded == Set::<HoldRouteState>::empty(),
                progress.floor == 0,
                problem.wf(),
                problem.space.query == *query,
                problem.space.starts == starts@,
                problem.space.corridor == Some(corridor),
                problem.minimum_arrival_ps == minimum_arrival_ps,
                goal_point == query.metadata.wire_points@[query.goal.0 as int],
                starts.wf(),
                forall|s: HoldRouteState| #[trigger]
                    progress.visits.contains_key(s) ==> progress.visits[s].previous is None
                        && starts.ordered().take(index as int).contains(s.wire),
                forall|i: int|
                    0 <= i < index && problem.space.seed(#[trigger] starts.ordered()[i])
                        ==> progress.visits.contains_key(
                        problem.state(
                            starts.ordered()[i],
                            query.tree_delays_ps@[starts.ordered()[i].0 as int] as int,
                        ),
                    ),
            decreases starts.ordered().len() - index,
        {
            let start = starts.at(index);
            let ghost before = progress;
            let ghost queue = search.queue@;
            proof {
                assert forall|s: HoldRouteState| #[trigger] progress.visits.contains_key(
                    s,
                ) implies starts.ordered().take(index + 1).contains(s.wire) by {
                    let k = starts.ordered().take(index as int).index_of(s.wire);
                    assert(starts.ordered().take(index + 1)[k] == s.wire);
                }
            }
            if borders_corridor(query, start, corridor, Ghost(problem.space)) {
                let arrival_ps: u64 = query.tree_delays_ps[start.0];
                let state = HoldRouteState {
                    wire: start,
                    bucket: hold_delay_bucket(arrival_ps, minimum_arrival_ps),
                };
                let distance: u64 = timing_tree_cost(
                    arrival_ps,
                    query.criticality,
                    ROUTING_DELAY_QUANTUM_PS,
                );
                let visit = HoldRouteVisit { distance, arrival_ps, previous: None };
                search.visits.insert(state, visit);
                let estimate: u64 = if query.hard_occupancy.is_some() {
                    distance
                } else {
                    distance.saturating_add(
                        query.metadata.wire_points[start.0].manhattan(goal_point),
                    )
                };
                let entry = HoldQueueEntry { estimate, distance, arrival_ps, state };
                search.queue.push(entry);
                proof {
                    assert(visit == problem.seed_visit(start));
                    assert(entry == problem.entry_of(state, visit));
                    progress = HoldProgress { visits: search.visits@, ..progress };
                    assert(starts.ordered().take(index + 1)[index as int] == start);
                    assert(!before.visits.contains_key(state)) by {
                        if before.visits.contains_key(state) {
                            let prefix = starts.ordered().take(index as int);
                            let k = prefix.index_of(start);
                            assert(prefix[k] == start);
                            assert(starts.ordered()[k].rank() < starts.ordered()[index as int].rank());
                        }
                    }
                    assert forall|s: HoldRouteState| progress.visits.contains_key(s) implies
                    #[trigger] progress.linked(problem, s) by {
                        if s != state {
                            assert(before.visits.contains_key(s));
                            assert(before.linked(problem, s));
                        }
                    }
                    assert forall|s: HoldRouteState| progress.visits.contains_key(s) implies
                    #[trigger] progress.anchored(s) by {
                        assert(progress.visits[s].previous is None) by {
                            if s != state {
                                assert(before.visits.contains_key(s));
                            }
                        }
                        assert(chain_is(progress.visits, s, 0));
                    }
                    assert forall|s: HoldRouteState| #[trigger] progress.visits.contains_key(s) implies progress.expanded.contains(
                        s,
                    ) || progress.waits(search.queue@, s) by {
                        if s == state {
                            assert(search.queue@.contains(entry) && progress.entry_matches(
                                entry,
                                s,
                            ));
                        } else {
                            assert(before.visits.contains_key(s));
                            assert(before.waits(queue, s));
                            let e = choose|e: HoldQueueEntry| #[trigger]
                                queue.contains(e) && before.entry_matches(e, s);
                            assert(search.queue@.contains(e) && progress.entry_matches(e, s));
                        }
                    }
                    assert forall|e: HoldQueueEntry| #[trigger] search.queue@.contains(e) implies progress.visits.contains_key(
                        e.state,
                    ) && (problem.is_hard() ==> e.estimate == e.distance && e.distance
                        >= progress.floor) by {
                        if e != entry {
                            assert(queue.contains(e));
                        }
                    }
                }
            }
            index = index + 1;
        }
        proof {
            assert forall|w: WireId| #[trigger] problem.space.seed(w) implies progress.visits.contains_key(
                problem.state(w, query.tree_delays_ps@[w.0 as int] as int),
            ) by {
                starts.membership(w);
                let i = starts.ordered().index_of(w);
                assert(problem.space.seed(starts.ordered()[i]));
            }
        }
        (search, Ghost(progress))
    }

    /// Follows one hop of the state under expansion, if the space allows it.
    fn relax_hop(
        &mut self,
        query: &RouteQuery<'_>,
        starts: &OrderedSet<WireId>,
        costs: &RoutingCosts,
        minimum_arrival_ps: u64,
        corridor: RoutingCorridor,
        popped: HoldQueueEntry,
        index: usize,
        blockers: &mut HardRoutingBlockers,
        Ghost(problem): Ghost<HoldProblem<'_>>,
        Ghost(progress): Ghost<HoldProgress>,
    ) -> (result: Ghost<HoldProgress>)
        requires
            old(self).wf(problem, progress),
            progress.covered(old(self).queue@, Some(popped.state)),
            progress.seeded(problem),
            problem.space == space_of(*query, starts, None, Some(corridor)),
            problem.costs == *costs,
            problem.minimum_arrival_ps == minimum_arrival_ps,
            starts.wf(),
            progress.visits.contains_key(popped.state),
            progress.entry_matches(popped, popped.state),
            problem.is_hard() ==> popped.distance == progress.floor,
            index < progress.hop_count(problem, popped.state),
            progress.all_followed(problem, popped.state, index as int),
            old(blockers).wf(),
        ensures
            final(self).wf(problem, result@),
            result@.covered(final(self).queue@, Some(popped.state)),
            result@.seeded(problem),
            result@.floor == progress.floor,
            result@.expanded == progress.expanded,
            result@.visits.contains_key(popped.state),
            result@.entry_matches(popped, popped.state),
            result@.all_followed(problem, popped.state, index + 1),
            result@.potential(HoldProgress::state_count(problem)) < progress.potential(
                HoldProgress::state_count(problem),
            ) || (result@ == progress && final(self).queue@ == old(self).queue@),
            final(self).point() == problem.relaxed(popped, old(self).point(), index as int),
            final(blockers).wf(),
            blockers_grow(*query, *old(blockers), *final(blockers)),
            problem.space.meets_hop(popped.state.wire, index as int, final(blockers).met()),
    {
        let ghost here = popped.state;
        proof {
            assert(progress.linked(problem, here));
            query.graph.device.lemma_hop(here.wire, index as int);
            assert forall|k: int| 0 <= k < index + 1 && k != index implies #[trigger] progress.followed(
                problem,
                here,
                k,
            ) by {}
        }
        let hop = query.graph.device.neighbors[popped.state.wire.0][index];
        let neighbor = hop.0;
        let pip = hop.1;
        if pip_is_blocked(query.blocked_pip_words, pip) {
            assert(progress.followed(problem, here, index as int));
            return Ghost(progress);
        }
        if starts.contains(neighbor) {
            assert(progress.followed(problem, here, index as int));
            return Ghost(progress);
        }
        if !point_inside_corridor(query.metadata.wire_points[neighbor.0], corridor) {
            assert(progress.followed(problem, here, index as int));
            return Ghost(progress);
        }
        if let Some(occupancy) = query.hard_occupancy {
            let wire_blocked = occupancy.wires[neighbor.0]
                >= query.metadata.wire_capacities[neighbor.0];
            let pip_blocked = occupancy.pips[pip.0] >= query.metadata.pip_capacities[pip.0];
            if wire_blocked || pip_blocked {
                if wire_blocked {
                    blockers.wires.insert(neighbor);
                }
                if pip_blocked {
                    blockers.pips.insert(pip);
                }
                assert(progress.followed(problem, here, index as int));
                return Ghost(progress);
            }
        }
        assert(problem.space.hop(here.wire, pip, neighbor));
        let congestion: u64 = query.wire_congestion[neighbor.0] as u64
            + query.pip_congestion[pip.0] as u64;
        let pip_delay_ps: u32 = costs.pip_min_delays_ps[pip.0];
        let next_distance: u64 = popped.distance.saturating_add(
            routing_step_cost(
                pip_delay_ps,
                query.criticality,
                congestion,
                ROUTING_DELAY_QUANTUM_PS,
            ),
        );
        let next_arrival_ps: u64 = popped.arrival_ps.saturating_add(pip_delay_ps as u64);
        let next_state = HoldRouteState {
            wire: neighbor,
            bucket: hold_delay_bucket(next_arrival_ps, minimum_arrival_ps),
        };
        proof {
            if problem.is_late() {
                assert(progress.visits[here].arrival_ps >= problem.minimum_arrival_ps);
                assert(next_state.bucket == here.bucket);
            }
        }
        let improves = match self.visits.get(next_state) {
            None => true,
            Some(known) => next_distance < known.distance || (next_distance == known.distance
                && next_distance < u64::MAX && next_arrival_ps > known.arrival_ps),
        };
        if !improves {
            proof {
                assert(progress.followed(problem, here, index as int));
                let visit = problem.next_visit(popped, pip, neighbor);
                assert(visit.distance == next_distance);
                assert(visit.arrival_ps == next_arrival_ps);
                assert(next_state == problem.state(neighbor, next_arrival_ps as int));
            }
            return Ghost(progress);
        }
        let visit = HoldRouteVisit {
            distance: next_distance,
            arrival_ps: next_arrival_ps,
            previous: Some((popped.state, pip)),
        };
        let estimate: u64 = if query.hard_occupancy.is_some() {
            next_distance
        } else {
            next_distance.saturating_add(
                query.metadata.wire_points[neighbor.0].manhattan(
                    query.metadata.wire_points[query.goal.0],
                ),
            )
        };
        let entry = HoldQueueEntry {
            estimate,
            distance: next_distance,
            arrival_ps: next_arrival_ps,
            state: next_state,
        };
        let ghost queue = self.queue@;
        proof {
            assert(visit == problem.next_visit(popped, pip, neighbor));
            assert(next_state == problem.state(neighbor, next_arrival_ps as int));
            assert(entry == problem.entry_of(next_state, visit));
        }
        self.visits.insert(next_state, visit);
        self.queue.push(entry);
        let ghost mut after = progress;
        proof {
            after = progress.lemma_relaxed(problem, queue, here, pip, next_state, visit, entry);
            assert(after.all_followed(problem, here, index as int));
            assert(after.followed(problem, here, index as int));
            assert forall|k: int| 0 <= k < index + 1 implies #[trigger] after.followed(
                problem,
                here,
                k,
            ) by {}
        }
        Ghost(after)
    }
}

/// Searches the corridor of the goal for a route that arrives no earlier than a minimum.
///
/// A hard-occupancy search never answers with a route below the minimum. Where
/// every tree wire is already late enough, the search fails only where no
/// route of the corridor leads to the goal.
pub fn shortest_hold_path(
    query: &RouteQuery<'_>,
    starts: &OrderedSet<WireId>,
    blockers: &mut HardRoutingBlockers,
    costs: &RoutingCosts,
    minimum_arrival_ps: u64,
) -> (result: Option<(Vec<WireId>, Vec<PipId>)>)
    requires
        query.wf(),
        costs.pip_min_delays_ps@.len() == query.graph.device.pips@.len(),
        starts.wf(),
        starts.ordered().len() > 0,
        forall|w: WireId| #[trigger]
            starts@.contains(w) ==> w.0 < query.graph.device.wires@.len() && w.0
                < query.tree_delays_ps@.len(),
        old(blockers).wf(),
    ensures
        final(blockers).wf(),
        blockers_grow(*query, *old(blockers), *final(blockers)),
        hold_problem(*query, starts, costs, minimum_arrival_ps).searches(
            starts.ordered(),
            result,
            final(blockers).met(),
        ),
        match result {
            Some(path) => {
                let problem = hold_problem(*query, starts, costs, minimum_arrival_ps);
                &&& problem.space.is_walk(path.0@.reverse(), path.1@.reverse())
                &&& path.0@.reverse().last() == query.goal
                &&& path.0@.reverse().no_duplicates()
                &&& problem.is_hard() ==> problem.walk_arrival(
                    path.0@.reverse(),
                    path.1@.reverse(),
                    path.1@.len() as int,
                ) >= minimum_arrival_ps
            },
            None => hold_problem(*query, starts, costs, minimum_arrival_ps).is_late() ==> forall|
                wires: Seq<WireId>,
                pips: Seq<PipId>,
            |
                #![trigger hold_problem(*query, starts, costs, minimum_arrival_ps).space.is_walk(wires, pips)]
                hold_problem(*query, starts, costs, minimum_arrival_ps).space.is_walk(wires, pips)
                    ==> wires.last() != query.goal,
        },
{
    broadcast use vstd::multiset::group_multiset_axioms;

    let goal_point = query.metadata.wire_points[query.goal.0];
    let start_point = find_nearest_point(query, starts);
    let corridor = routing_corridor(
        start_point,
        goal_point,
        query.graph.device(),
        TIMING_ROUTE_MARGIN,
    );
    let ghost problem = hold_problem(*query, starts, costs, minimum_arrival_ps);
    let seeded = HoldSearch::seed_starts(
        query,
        starts,
        minimum_arrival_ps,
        corridor,
        Ghost(problem),
    );
    let mut search = seeded.0;
    let ghost mut progress = seeded.1@;
    let ghost states = HoldProgress::state_count(problem);
    let ghost mut points: Seq<HoldPoint> = seq![search.point()];
    let ghost mut entries: Seq<HoldQueueEntry> = Seq::empty();
    loop
        invariant
            search.wf(problem, progress),
            problem.is_course(starts.ordered(), points, entries),
            points.last() == search.point(),
            progress.covered(search.queue@, None),
            progress.seeded(problem),
            problem == hold_problem(*query, starts, costs, minimum_arrival_ps),
            problem.space == space_of(*query, starts, None, Some(corridor)),
            starts.wf(),
            states == HoldProgress::state_count(problem),
            blockers.wf(),
            blockers_grow(*query, *old(blockers), *blockers),
            problem.meets_all(points, entries, blockers.met()),
        decreases progress.potential(states), search.queue@.len(),
    {
        let ghost queue = search.queue@;
        let ghost point = search.point();
        match search.queue.pop() {
            None => {
                proof {
                    let none: Option<(Vec<WireId>, Vec<PipId>)> = None;
                    assert(problem.is_course(starts.ordered(), points, entries));
                    assert(problem.is_end(points.last(), none));
                    if problem.is_late() {
                        assert forall|wires: Seq<WireId>, pips: Seq<PipId>|
                            #![trigger problem.space.is_walk(wires, pips)]
                            problem.space.is_walk(wires, pips) implies wires.last() != query.goal by {
                            lemma_walk_is_reached(
                                problem,
                                progress,
                                queue,
                                wires,
                                pips,
                                wires.len() - 1,
                            );
                        }
                    }
                }
                return None;
            },
            Some(popped) => {
                let ghost before = progress;
                proof {
                    lemma_popped(problem, progress, queue, popped);
                    assert(is_least(point.queue, popped));
                }
                let ghost rest = search.point();
                let known = match search.visits.get(popped.state) {
                    Some(visit) => *visit,
                    None => {
                        assert(false);
                        return None;
                    },
                };
                if known.distance != popped.distance || known.arrival_ps != popped.arrival_ps {
                    proof {
                        assert(!problem.is_current(point, popped));
                        assert(problem.is_step(point, popped, rest));
                        problem.lemma_course_grows(
                            starts.ordered(),
                            points,
                            entries,
                            popped,
                            rest,
                        );
                        problem.lemma_met_step(
                            points,
                            entries,
                            popped,
                            rest,
                            blockers.met(),
                        );
                        points = points.push(rest);
                        entries = entries.push(popped);
                    }
                    continue ;
                }
                proof {
                    assert(progress.linked(problem, popped.state));
                    let raised = HoldProgress {
                        floor: if problem.is_hard() {
                            popped.distance as int
                        } else {
                            progress.floor
                        },
                        ..progress
                    };
                    lemma_raise_floor(problem, progress, queue, popped, raised);
                    progress = raised;
                }
                if popped.state.wire == query.goal {
                    if popped.arrival_ps >= minimum_arrival_ps {
                        let path = reconstruct_hold_path(
                            popped.state,
                            &search.visits,
                            Ghost(problem),
                            Ghost(progress),
                        );
                        if visits_once(&path.0) {
                            proof {
                                assert(problem.delivers(point, popped, path.0@, path.1@));
                                assert(problem.is_end(points.last(), Some(path)));
                                assert(problem.is_course(starts.ordered(), points, entries));
                                let forward = path.0@.reverse();
                                assert forall|a: int, b: int|
                                    0 <= a < forward.len() && 0 <= b < forward.len() && a
                                        != b implies forward[a] != forward[b] by {
                                    let x = forward.len() - 1 - a;
                                    let y = forward.len() - 1 - b;
                                    assert(path.0@[x] != path.0@[y]);
                                }
                            }
                            return Some(path);
                        }
                        proof {
                            assert forall|wires: Seq<WireId>, pips: Seq<PipId>|
                                !#[trigger] problem.delivers(point, popped, wires, pips) by {
                                if problem.delivers(point, popped, wires, pips) {
                                    lemma_traces_unique(
                                        point.visits,
                                        popped.state,
                                        (wires, pips),
                                        (path.0@, path.1@),
                                    );
                                }
                            }
                        }
                    }
                    proof {
                        assert(problem.is_step(point, popped, rest));
                        problem.lemma_course_grows(
                            starts.ordered(),
                            points,
                            entries,
                            popped,
                            rest,
                        );
                        problem.lemma_met_step(
                            points,
                            entries,
                            popped,
                            rest,
                            blockers.met(),
                        );
                        points = points.push(rest);
                        entries = entries.push(popped);
                        let finished = HoldProgress {
                            expanded: progress.expanded.insert(popped.state),
                            ..progress
                        };
                        lemma_finish(problem, progress, search.queue@, popped.state, finished);
                        lemma_same_potential(before, finished, states);
                        progress = finished;
                    }
                    continue ;
                }
                let hops: usize = query.graph.device.neighbors[popped.state.wire.0].len();
                let mut index: usize = 0;
                let ghost start = progress;
                let ghost start_queue = search.queue@;
                proof {
                    lemma_same_potential(before, start, states);
                }
                while index < hops
                    invariant
                        index <= hops,
                        hops == progress.hop_count(problem, popped.state),
                        search.wf(problem, progress),
                        search.point() == problem.expanded(popped, rest, index as int),
                        progress.covered(search.queue@, Some(popped.state)),
                        progress.seeded(problem),
                        problem == hold_problem(*query, starts, costs, minimum_arrival_ps),
                        problem.space == space_of(*query, starts, None, Some(corridor)),
                        starts.wf(),
                        states == HoldProgress::state_count(problem),
                        progress.visits.contains_key(popped.state),
                        progress.entry_matches(popped, popped.state),
                        problem.is_hard() ==> popped.distance == progress.floor,
                        progress.all_followed(problem, popped.state, index as int),
                        progress.potential(states) < start.potential(states) || (progress == start
                            && search.queue@ == start_queue),
                        blockers.wf(),
                        blockers_grow(*query, *old(blockers), *blockers),
                        problem.meets_all(points, entries, blockers.met()),
                        problem.space.meets_first(
                            popped.state.wire,
                            index as int,
                            blockers.met(),
                        ),
                    decreases hops - index,
                {
                    let ghost known_met = blockers.met();
                    let next = search.relax_hop(
                        query,
                        starts,
                        costs,
                        minimum_arrival_ps,
                        corridor,
                        popped,
                        index,
                        blockers,
                        Ghost(problem),
                        Ghost(progress),
                    );
                    proof {
                        progress = next@;
                        problem.lemma_met_more(points, entries, known_met, blockers.met());
                        problem.space.lemma_meets_more(
                            popped.state.wire,
                            index as int,
                            known_met,
                            blockers.met(),
                        );
                    }
                    index = index + 1;
                }
                proof {
                    assert(problem.is_step(point, popped, search.point()));
                    problem.lemma_course_grows(
                        starts.ordered(),
                        points,
                        entries,
                        popped,
                        search.point(),
                    );
                    problem.lemma_met_step(
                        points,
                        entries,
                        popped,
                        search.point(),
                        blockers.met(),
                    );
                    points = points.push(search.point());
                    entries = entries.push(popped);
                    let last = progress;
                    let finished = HoldProgress {
                        expanded: progress.expanded.insert(popped.state),
                        ..progress
                    };
                    lemma_finish(problem, progress, search.queue@, popped.state, finished);
                    lemma_same_potential(last, finished, states);
                    progress = finished;
                }
            },
        }
    }
}

/// Taking an entry out leaves every other state waiting or expanded.
proof fn lemma_popped(
    problem: HoldProblem<'_>,
    progress: HoldProgress,
    queue: vstd::multiset::Multiset<HoldQueueEntry>,
    popped: HoldQueueEntry,
)
    requires
        progress.sound(problem),
        progress.covered(queue, None),
        progress.queue_ok(problem, queue),
        queue.contains(popped),
    ensures
        progress.visits.contains_key(popped.state),
        progress.queue_ok(problem, queue.remove(popped)),
        progress.covered(queue.remove(popped), Some(popped.state)),
        !progress.entry_matches(popped, popped.state) ==> progress.covered(
            queue.remove(popped),
            None,
        ),
        queue.remove(popped).len() < queue.len(),
{
    broadcast use vstd::multiset::group_multiset_axioms;

    let rest = queue.remove(popped);
    assert forall|e: HoldQueueEntry| #[trigger] rest.contains(e) implies progress.visits.contains_key(
        e.state,
    ) && (problem.is_hard() ==> e.estimate == e.distance && e.distance >= progress.floor) by {
        assert(queue.contains(e));
    }
    assert forall|s: HoldRouteState| #[trigger]
        progress.visits.contains_key(s) && (s != popped.state || !progress.entry_matches(
            popped,
            popped.state,
        )) implies progress.expanded.contains(s) || progress.waits(rest, s) by {
        if !progress.expanded.contains(s) {
            assert(progress.waits(queue, s));
            let e = choose|e: HoldQueueEntry| #[trigger]
                queue.contains(e) && progress.entry_matches(e, s);
            assert(e != popped);
            assert(rest.contains(e) && progress.entry_matches(e, s));
        }
    }
    assert(rest.insert(popped) =~= queue);
    assert(rest.insert(popped).len() == rest.len() + 1);
}

/// The cost of the least entry is the new floor.
proof fn lemma_raise_floor(
    problem: HoldProblem<'_>,
    progress: HoldProgress,
    queue: vstd::multiset::Multiset<HoldQueueEntry>,
    popped: HoldQueueEntry,
    raised: HoldProgress,
)
    requires
        progress.sound(problem),
        progress.seeded(problem),
        progress.closed_under_hops(problem),
        progress.queue_ok(problem, queue),
        progress.covered(queue.remove(popped), Some(popped.state)),
        queue.contains(popped),
        forall|e: HoldQueueEntry| #[trigger] queue.contains(e) ==> popped.rank() <= e.rank(),
        raised == (HoldProgress {
            floor: if problem.is_hard() {
                popped.distance as int
            } else {
                progress.floor
            },
            ..progress
        }),
    ensures
        raised.sound(problem),
        raised.seeded(problem),
        raised.closed_under_hops(problem),
        raised.queue_ok(problem, queue.remove(popped)),
        raised.covered(queue.remove(popped), Some(popped.state)),
{
    broadcast use vstd::multiset::group_multiset_axioms;

    let rest = queue.remove(popped);
    assert forall|s: HoldRouteState| raised.visits.contains_key(s) implies #[trigger] raised.linked(
        problem,
        s,
    ) by {
        assert(progress.linked(problem, s));
    }
    assert forall|s: HoldRouteState| raised.visits.contains_key(s) implies #[trigger] raised.anchored(
        s,
    ) by {
        assert(progress.anchored(s));
    }
    assert forall|e: HoldQueueEntry| #[trigger] rest.contains(e) implies raised.visits.contains_key(
        e.state,
    ) && (problem.is_hard() ==> e.estimate == e.distance && e.distance >= raised.floor) by {
        assert(queue.contains(e));
        assert(popped.rank() <= e.rank());
    }
    assert forall|s: HoldRouteState, count: int| #[trigger]
        progress.all_followed(problem, s, count) implies raised.all_followed(problem, s, count) by {
        assert forall|index: int| 0 <= index < count implies #[trigger] raised.followed(
            problem,
            s,
            index,
        ) by {
            assert(progress.followed(problem, s, index));
        }
    }
    assert forall|s: HoldRouteState| #[trigger]
        raised.expanded.contains(s) && problem.is_late() implies s.wire != problem.space.query.goal
        && raised.all_followed(problem, s, raised.hop_count(problem, s)) by {
        assert(progress.expanded.contains(s));
        assert(progress.all_followed(problem, s, progress.hop_count(problem, s)));
    }
    assert forall|s: HoldRouteState| #[trigger]
        raised.visits.contains_key(s) && Some(popped.state) != Some(s) implies raised.expanded.contains(
        s,
    ) || raised.waits(rest, s) by {
        assert(progress.visits.contains_key(s));
        if progress.waits(rest, s) {
            let e = choose|e: HoldQueueEntry| #[trigger]
                rest.contains(e) && progress.entry_matches(e, s);
            assert(rest.contains(e) && raised.entry_matches(e, s));
        }
    }
}

/// A state whose hops have been followed counts as expanded.
proof fn lemma_finish(
    problem: HoldProblem<'_>,
    progress: HoldProgress,
    queue: vstd::multiset::Multiset<HoldQueueEntry>,
    state: HoldRouteState,
    finished: HoldProgress,
)
    requires
        progress.sound(problem),
        progress.seeded(problem),
        progress.closed_under_hops(problem),
        progress.queue_ok(problem, queue),
        progress.covered(queue, Some(state)),
        progress.visits.contains_key(state),
        problem.is_late() ==> state.wire != problem.space.query.goal && progress.all_followed(
            problem,
            state,
            progress.hop_count(problem, state),
        ),
        finished == (HoldProgress { expanded: progress.expanded.insert(state), ..progress }),
    ensures
        finished.sound(problem),
        finished.seeded(problem),
        finished.closed_under_hops(problem),
        finished.queue_ok(problem, queue),
        finished.covered(queue, None),
{
    assert forall|s: HoldRouteState| finished.visits.contains_key(s) implies #[trigger] finished.linked(
        problem,
        s,
    ) by {
        assert(progress.linked(problem, s));
    }
    assert forall|s: HoldRouteState| finished.visits.contains_key(s) implies #[trigger] finished.anchored(
        s,
    ) by {
        assert(progress.anchored(s));
    }
    assert forall|s: HoldRouteState, count: int| #[trigger]
        progress.all_followed(problem, s, count) implies finished.all_followed(problem, s, count) by {
        assert forall|index: int| 0 <= index < count implies #[trigger] finished.followed(
            problem,
            s,
            index,
        ) by {
            assert(progress.followed(problem, s, index));
        }
    }
    assert forall|s: HoldRouteState| #[trigger]
        finished.expanded.contains(s) && problem.is_late() implies s.wire
        != problem.space.query.goal && finished.all_followed(
        problem,
        s,
        finished.hop_count(problem, s),
    ) by {
        if s != state {
            assert(progress.expanded.contains(s));
        }
        assert(progress.all_followed(problem, s, progress.hop_count(problem, s)));
    }
    assert forall|s: HoldRouteState| #[trigger]
        finished.visits.contains_key(s) implies finished.expanded.contains(s) || finished.waits(
        queue,
        s,
    ) by {
        assert(progress.visits.contains_key(s));
        if s != state && progress.waits(queue, s) {
            let e = choose|e: HoldQueueEntry| #[trigger]
                queue.contains(e) && progress.entry_matches(e, s);
            assert(queue.contains(e) && finished.entry_matches(e, s));
        }
    }
}

/// The sum of the labels depends on the labels alone.
proof fn lemma_same_potential(a: HoldProgress, b: HoldProgress, count: int)
    requires
        a.visits == b.visits,
    ensures
        a.potential(count) == b.potential(count),
    decreases count,
{
    if count > 0 {
        lemma_same_potential(a, b, count - 1);
    }
}

/// Once nothing waits and every start is late, every wire of every walk has been
/// reached and expanded.
proof fn lemma_walk_is_reached(
    problem: HoldProblem<'_>,
    progress: HoldProgress,
    queue: vstd::multiset::Multiset<HoldQueueEntry>,
    wires: Seq<WireId>,
    pips: Seq<PipId>,
    index: int,
)
    requires
        progress.sound(problem),
        progress.seeded(problem),
        progress.closed_under_hops(problem),
        progress.covered(queue, None),
        queue.len() == 0,
        problem.is_late(),
        problem.space.is_walk(wires, pips),
        0 <= index < wires.len(),
    ensures
        progress.expanded.contains(
            problem.state(wires[index], problem.minimum_arrival_ps),
        ),
        wires[index] != problem.space.query.goal,
    decreases index,
{
    broadcast use vstd::multiset::group_multiset_axioms;

    let state = problem.state(wires[index], problem.minimum_arrival_ps);
    if index == 0 {
        assert(problem.space.seed(wires[0]));
        assert(progress.visits.contains_key(
            problem.state(
                wires[0],
                problem.space.query.tree_delays_ps@[wires[0].0 as int] as int,
            ),
        ));
    } else {
        lemma_walk_is_reached(problem, progress, queue, wires, pips, index - 1);
        let previous = problem.state(wires[index - 1], problem.minimum_arrival_ps);
        assert(progress.expanded.contains(previous));
        let device = problem.space.query.graph.device;
        assert(problem.space.hop(wires[index - 1], pips[index - 1], wires[index]));
        device.lemma_listed(wires[index - 1], pips[index - 1], wires[index]);
        let k = device.neighbors@[wires[index - 1].0 as int]@.index_of(
            (wires[index], pips[index - 1]),
        );
        assert(progress.all_followed(problem, previous, progress.hop_count(problem, previous)));
        assert(progress.followed(problem, previous, k));
    }
    assert(progress.visits.contains_key(state));
    if progress.waits(queue, state) {
        let e = choose|e: HoldQueueEntry| #[trigger]
            queue.contains(e) && progress.entry_matches(e, state);
        assert(queue.remove(e).insert(e) =~= queue);
        assert(queue.remove(e).insert(e).len() == queue.remove(e).len() + 1);
    }
    assert(progress.expanded.contains(state));
}

} // verus!
