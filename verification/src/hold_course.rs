//! The course of a hold search, entry by entry.

use vstd::multiset::Multiset;
use vstd::prelude::*;

use crate::cost::{clip_u64, step_cost, tree_cost, ROUTING_DELAY_QUANTUM_PS};
use crate::hold::{HoldProblem, HoldQueueEntry, HoldRouteState, HoldRouteVisit};
use crate::model::{PipId, WireId};
use crate::ordered::OrderedKey;
use crate::search::MetResources;

verus! {

/// What a hold search has reached and what waits.
pub struct HoldPoint {
    /// Best known way into each reached state.
    pub visits: Map<HoldRouteState, HoldRouteVisit>,
    /// Waiting entries.
    pub queue: Multiset<HoldQueueEntry>,
}

/// No entry comes before the given one.
pub open spec fn is_least(queue: Multiset<HoldQueueEntry>, entry: HoldQueueEntry) -> bool {
    &&& queue.contains(entry)
    &&& forall|other: HoldQueueEntry| #[trigger]
        queue.contains(other) ==> entry.rank() <= other.rank()
}

/// The way from a state back to the tree.
pub open spec fn traces(
    visits: Map<HoldRouteState, HoldRouteVisit>,
    state: HoldRouteState,
    wires: Seq<WireId>,
    pips: Seq<PipId>,
) -> bool
    decreases wires.len(),
{
    &&& wires.len() == pips.len() + 1
    &&& visits.contains_key(state)
    &&& wires[0] == state.wire
    &&& match visits[state].previous {
        None => wires.len() == 1,
        Some(link) => wires.len() > 1 && pips[0] == link.1 && traces(
            visits,
            link.0,
            wires.skip(1),
            pips.skip(1),
        ),
    }
}

/// There is one way back.
pub proof fn lemma_traces_unique(
    visits: Map<HoldRouteState, HoldRouteVisit>,
    state: HoldRouteState,
    a: (Seq<WireId>, Seq<PipId>),
    b: (Seq<WireId>, Seq<PipId>),
)
    requires
        traces(visits, state, a.0, a.1),
        traces(visits, state, b.0, b.1),
    ensures
        a == b,
    decreases a.0.len(),
{
    if let Some(link) = visits[state].previous {
        lemma_traces_unique(
            visits,
            link.0,
            (a.0.skip(1), a.1.skip(1)),
            (b.0.skip(1), b.1.skip(1)),
        );
        assert(a.0 =~= seq![a.0[0]] + a.0.skip(1));
        assert(b.0 =~= seq![b.0[0]] + b.0.skip(1));
        assert(a.1 =~= seq![a.1[0]] + a.1.skip(1));
        assert(b.1 =~= seq![b.1[0]] + b.1.skip(1));
    } else {
        assert(a.0 =~= b.0);
        assert(a.1 =~= b.1);
    }
}

impl<'a> HoldProblem<'a> {
    /// Predicted cost of a whole route: the distance to the goal counts unless
    /// the occupancy is hard.
    pub open spec fn guess(&self, wire: WireId, distance: int) -> int {
        let points = self.space.query.metadata.wire_points@;
        if self.is_hard() {
            distance
        } else {
            clip_u64(
                distance + points[wire.0 as int].distance(
                    points[self.space.query.goal.0 as int],
                ),
            )
        }
    }

    /// The entry of a state.
    pub open spec fn entry_of(
        &self,
        state: HoldRouteState,
        visit: HoldRouteVisit,
    ) -> HoldQueueEntry {
        HoldQueueEntry {
            estimate: self.guess(state.wire, visit.distance as int) as u64,
            distance: visit.distance,
            arrival_ps: visit.arrival_ps,
            state,
        }
    }

    /// The point with one more state reached.
    pub open spec fn reach(
        &self,
        point: HoldPoint,
        state: HoldRouteState,
        visit: HoldRouteVisit,
    ) -> HoldPoint {
        HoldPoint {
            visits: point.visits.insert(state, visit),
            queue: point.queue.insert(self.entry_of(state, visit)),
        }
    }

    /// How the search begins at a tree wire.
    pub open spec fn seed_visit(&self, wire: WireId) -> HoldRouteVisit {
        let arrival_ps = self.space.query.tree_delays_ps@[wire.0 as int];
        HoldRouteVisit {
            distance: tree_cost(
                arrival_ps as int,
                self.space.query.criticality as int,
                ROUTING_DELAY_QUANTUM_PS as int,
            ) as u64,
            arrival_ps,
            previous: None,
        }
    }

    /// The first tree wires from which the search enters its corridor.
    pub open spec fn sown(&self, starts: Seq<WireId>, count: int) -> HoldPoint
        decreases count,
    {
        if count <= 0 {
            HoldPoint { visits: Map::empty(), queue: Multiset::empty() }
        } else {
            let rest = self.sown(starts, count - 1);
            let wire = starts[count - 1];
            if self.space.seed(wire) {
                let visit = self.seed_visit(wire);
                self.reach(rest, self.state(wire, visit.arrival_ps as int), visit)
            } else {
                rest
            }
        }
    }

    /// What a hop makes of a label.
    pub open spec fn next_visit(
        &self,
        popped: HoldQueueEntry,
        pip: PipId,
        wire: WireId,
    ) -> HoldRouteVisit {
        let query = self.space.query;
        let congestion = query.wire_congestion@[wire.0 as int]
            + query.pip_congestion@[pip.0 as int];
        HoldRouteVisit {
            distance: clip_u64(
                popped.distance + step_cost(
                    self.delay(pip),
                    query.criticality as int,
                    congestion,
                    ROUTING_DELAY_QUANTUM_PS as int,
                ),
            ) as u64,
            arrival_ps: self.arrive(popped.arrival_ps as int, pip) as u64,
            previous: Some((popped.state, pip)),
        }
    }

    /// The label is cheaper than what is known of the state, or as cheap and later.
    pub open spec fn improves(
        &self,
        point: HoldPoint,
        state: HoldRouteState,
        visit: HoldRouteVisit,
    ) -> bool {
        point.visits.contains_key(state) ==> {
            let known = point.visits[state];
            visit.distance < known.distance || (visit.distance == known.distance && visit.distance
                < u64::MAX && visit.arrival_ps > known.arrival_ps)
        }
    }

    /// One hop of an entry is followed.
    pub open spec fn relaxed(
        &self,
        popped: HoldQueueEntry,
        point: HoldPoint,
        index: int,
    ) -> HoldPoint {
        let hop = self.space.query.graph.device.neighbors@[popped.state.wire.0 as int]@[index];
        let visit = self.next_visit(popped, hop.1, hop.0);
        let state = self.state(hop.0, visit.arrival_ps as int);
        if self.space.hop(popped.state.wire, hop.1, hop.0) && self.improves(point, state, visit) {
            self.reach(point, state, visit)
        } else {
            point
        }
    }

    /// The first hops of an entry are followed.
    pub open spec fn expanded(
        &self,
        popped: HoldQueueEntry,
        point: HoldPoint,
        count: int,
    ) -> HoldPoint
        decreases count,
    {
        if count <= 0 {
            point
        } else {
            self.relaxed(popped, self.expanded(popped, point, count - 1), count - 1)
        }
    }

    /// The entry carries the label of its state.
    pub open spec fn is_current(&self, point: HoldPoint, entry: HoldQueueEntry) -> bool {
        &&& point.visits.contains_key(entry.state)
        &&& point.visits[entry.state].distance == entry.distance
        &&& point.visits[entry.state].arrival_ps == entry.arrival_ps
    }

    /// The entry stands at the goal, late enough, and this way back visits no wire twice.
    pub open spec fn delivers(
        &self,
        point: HoldPoint,
        entry: HoldQueueEntry,
        wires: Seq<WireId>,
        pips: Seq<PipId>,
    ) -> bool {
        &&& self.is_current(point, entry)
        &&& entry.state.wire == self.space.query.goal
        &&& entry.arrival_ps >= self.minimum_arrival_ps
        &&& traces(point.visits, entry.state, wires, pips)
        &&& wires.no_duplicates()
    }

    /// The least entry leaves the queue without an answer, and its hops are
    /// followed unless it is outdated or stands at the goal.
    pub open spec fn is_step(
        &self,
        before: HoldPoint,
        entry: HoldQueueEntry,
        after: HoldPoint,
    ) -> bool {
        let rest = HoldPoint { visits: before.visits, queue: before.queue.remove(entry) };
        let hops = self.space.query.graph.device.neighbors@[entry.state.wire.0 as int]@.len();
        &&& is_least(before.queue, entry)
        &&& forall|wires: Seq<WireId>, pips: Seq<PipId>| !#[trigger]
            self.delivers(before, entry, wires, pips)
        &&& after == if !self.is_current(before, entry) || entry.state.wire
            == self.space.query.goal {
            rest
        } else {
            self.expanded(entry, rest, hops as int)
        }
    }

    /// One step of the course.
    pub open spec fn is_step_at(
        &self,
        points: Seq<HoldPoint>,
        entries: Seq<HoldQueueEntry>,
        at: int,
    ) -> bool {
        self.is_step(points[at], entries[at], points[at + 1])
    }

    /// The course of the search from the tree on.
    pub open spec fn is_course(
        &self,
        starts: Seq<WireId>,
        points: Seq<HoldPoint>,
        entries: Seq<HoldQueueEntry>,
    ) -> bool {
        &&& points.len() == entries.len() + 1
        &&& points[0] == self.sown(starts, starts.len() as int)
        &&& forall|i: int|
            0 <= i < entries.len() ==> #[trigger] self.is_step_at(points, entries, i)
    }

    /// The least entry gives the path, or without a path no entry is left.
    pub open spec fn is_end(
        &self,
        point: HoldPoint,
        result: Option<(Vec<WireId>, Vec<PipId>)>,
    ) -> bool {
        match result {
            None => point.queue.len() == 0,
            Some(path) => exists|entry: HoldQueueEntry| #[trigger]
                is_least(point.queue, entry) && self.delivers(point, entry, path.0@, path.1@),
        }
    }

    /// Where the entry is followed, what leaves no room for a hop was met.
    pub open spec fn met_at(
        &self,
        points: Seq<HoldPoint>,
        entries: Seq<HoldQueueEntry>,
        at: int,
        met: MetResources,
    ) -> bool {
        self.is_current(points[at], entries[at]) && entries[at].state.wire
            != self.space.query.goal ==> self.space.meets(entries[at].state.wire, met)
    }

    /// What leaves no room for a hop of the course was met.
    pub open spec fn meets_all(
        &self,
        points: Seq<HoldPoint>,
        entries: Seq<HoldQueueEntry>,
        met: MetResources,
    ) -> bool {
        forall|i: int| 0 <= i < entries.len() ==> #[trigger] self.met_at(points, entries, i, met)
    }

    /// What was met stays met.
    pub proof fn lemma_met_more(
        &self,
        points: Seq<HoldPoint>,
        entries: Seq<HoldQueueEntry>,
        met: MetResources,
        more: MetResources,
    )
        requires
            self.meets_all(points, entries, met),
            met.within(more),
        ensures
            self.meets_all(points, entries, more),
    {
        assert forall|i: int| 0 <= i < entries.len() implies #[trigger] self.met_at(
            points,
            entries,
            i,
            more,
        ) by {
            assert(self.met_at(points, entries, i, met));
            let wire = entries[i].state.wire;
            if self.is_current(points[i], entries[i]) && wire != self.space.query.goal {
                self.space.lemma_meets_more(
                    wire,
                    self.space.query.graph.device.neighbors@[wire.0 as int]@.len() as int,
                    met,
                    more,
                );
            }
        }
    }

    /// One more entry, whose hops met what they could.
    pub proof fn lemma_met_step(
        &self,
        points: Seq<HoldPoint>,
        entries: Seq<HoldQueueEntry>,
        entry: HoldQueueEntry,
        next: HoldPoint,
        met: MetResources,
    )
        requires
            points.len() == entries.len() + 1,
            self.meets_all(points, entries, met),
            self.is_current(points.last(), entry) && entry.state.wire != self.space.query.goal
                ==> self.space.meets(entry.state.wire, met),
        ensures
            self.meets_all(points.push(next), entries.push(entry), met),
    {
        let more_points = points.push(next);
        let more_entries = entries.push(entry);
        assert forall|i: int| 0 <= i < more_entries.len() implies #[trigger] self.met_at(
            more_points,
            more_entries,
            i,
            met,
        ) by {
            if i < entries.len() {
                assert(self.met_at(points, entries, i, met));
                assert(more_points[i] == points[i] && more_entries[i] == entries[i]);
            } else {
                assert(more_points[i] == points.last() && more_entries[i] == entry);
            }
        }
    }

    /// The search from the tree on ends with the answer, and what leaves no room
    /// for a hop of it was met.
    pub open spec fn searches(
        &self,
        starts: Seq<WireId>,
        result: Option<(Vec<WireId>, Vec<PipId>)>,
        met: MetResources,
    ) -> bool {
        exists|points: Seq<HoldPoint>, entries: Seq<HoldQueueEntry>|
            {
                &&& #[trigger] self.is_course(starts, points, entries)
                &&& self.is_end(points.last(), result)
                &&& self.meets_all(points, entries, met)
            }
    }

    /// One more entry makes a longer course.
    pub proof fn lemma_course_grows(
        &self,
        starts: Seq<WireId>,
        points: Seq<HoldPoint>,
        entries: Seq<HoldQueueEntry>,
        entry: HoldQueueEntry,
        next: HoldPoint,
    )
        requires
            self.is_course(starts, points, entries),
            self.is_step(points.last(), entry, next),
        ensures
            self.is_course(starts, points.push(next), entries.push(entry)),
    {
        let more_points = points.push(next);
        let more_entries = entries.push(entry);
        assert forall|i: int| 0 <= i < more_entries.len() implies #[trigger] self.is_step_at(
            more_points,
            more_entries,
            i,
        ) by {
            if i < entries.len() {
                assert(self.is_step_at(points, entries, i));
                assert(more_points[i] == points[i] && more_points[i + 1] == points[i + 1]);
                assert(more_entries[i] == entries[i]);
            } else {
                assert(more_points[i] == points.last());
            }
        }
    }
}

} // verus!
