//! The course of a route search, entry by entry.

use vstd::multiset::Multiset;
use vstd::prelude::*;

use crate::cost::{clip_u32, clip_u64, step_cost, transition_cost, ROUTING_DELAY_QUANTUM_PS};
use crate::model::{PipId, WireId};
use crate::ordered::OrderedKey;
use crate::search::{MetResources, RouteQueueEntry, RouteSearch, SearchSpace};

verus! {

/// Best known way into a wire.
pub struct RouteLabel {
    /// Cost of the route.
    pub distance: u32,
    /// Arrival of the route.
    pub arrival_ps: u32,
    /// Wire before this one and the PIP between them; none at a tree wire.
    pub previous: Option<(WireId, PipId)>,
}

/// What a route search has reached and what waits.
pub struct SearchPoint {
    /// Best known way into each reached wire.
    pub labels: Map<WireId, RouteLabel>,
    /// Waiting entries.
    pub queue: Multiset<RouteQueueEntry>,
}

/// No entry comes before the given one.
pub open spec fn comes_first(queue: Multiset<RouteQueueEntry>, entry: RouteQueueEntry) -> bool {
    &&& queue.contains(entry)
    &&& forall|other: RouteQueueEntry| #[trigger]
        queue.contains(other) ==> entry.rank() <= other.rank()
}

/// The way from a wire back to the tree.
pub open spec fn leads_back(
    labels: Map<WireId, RouteLabel>,
    wires: Seq<WireId>,
    pips: Seq<PipId>,
) -> bool {
    &&& wires.len() == pips.len() + 1
    &&& forall|i: int| 0 <= i < wires.len() ==> labels.contains_key(#[trigger] wires[i])
    &&& forall|i: int|
        0 <= i < pips.len() ==> labels[wires[i]].previous == Some(
            (wires[i + 1], #[trigger] pips[i]),
        )
    &&& labels[wires.last()].previous is None
}

impl RouteSearch {
    /// Label of a reached wire.
    pub open spec fn label_of(&self, wire: int) -> RouteLabel {
        RouteLabel {
            distance: self.distance@[wire],
            arrival_ps: self.arrival_ps@[wire],
            previous: if self.previous_wire@[wire] == u32::MAX {
                None
            } else {
                Some(
                    (
                        WireId(self.previous_wire@[wire] as usize),
                        PipId(self.previous_pip@[wire] as usize),
                    ),
                )
            },
        }
    }

    /// Labels of every reached wire.
    pub open spec fn labels(&self) -> Map<WireId, RouteLabel> {
        Map::new(
            |w: WireId| w.0 < self.seen@.len() && self.reached(w.0 as int),
            |w: WireId| self.label_of(w.0 as int),
        )
    }

    /// What the search has reached and what waits.
    pub open spec fn point(&self) -> SearchPoint {
        SearchPoint { labels: self.labels(), queue: self.queue@ }
    }

    /// The point with one more wire reached.
    pub open spec fn reach(
        &self,
        space: SearchSpace<'_>,
        point: SearchPoint,
        wire: WireId,
        label: RouteLabel,
    ) -> SearchPoint {
        SearchPoint {
            labels: point.labels.insert(wire, label),
            queue: point.queue.insert(
                RouteQueueEntry {
                    estimate: self.whole_estimate(
                        space.query,
                        label.distance as int,
                        wire.0 as int,
                    ) as u32,
                    distance: label.distance,
                    arrival_ps: label.arrival_ps,
                    wire: wire.0 as u32,
                },
            ),
        }
    }

    /// How the search begins at a tree wire.
    pub open spec fn seed_label(&self, space: SearchSpace<'_>, wire: WireId) -> RouteLabel {
        RouteLabel {
            distance: space.query.start_cost(wire) as u32,
            arrival_ps: clip_u32(space.query.tree_delays_ps@[wire.0 as int] as int) as u32,
            previous: None,
        }
    }

    /// The first tree wires from which the search enters its corridor.
    pub open spec fn sown(
        &self,
        space: SearchSpace<'_>,
        starts: Seq<WireId>,
        count: int,
    ) -> SearchPoint
        decreases count,
    {
        if count <= 0 {
            SearchPoint { labels: Map::empty(), queue: Multiset::empty() }
        } else {
            let rest = self.sown(space, starts, count - 1);
            let wire = starts[count - 1];
            if space.seed(wire) {
                self.reach(space, rest, wire, self.seed_label(space, wire))
            } else {
                rest
            }
        }
    }

    /// What a hop makes of a label: PIP delays are rounded each by itself under the
    /// default quantum, and otherwise as part of the whole arrival.
    pub open spec fn next_label(
        &self,
        space: SearchSpace<'_>,
        from: WireId,
        label: RouteLabel,
        pip: PipId,
        to: WireId,
    ) -> RouteLabel {
        let query = space.query;
        let congestion = query.wire_congestion@[to.0 as int] + query.pip_congestion@[pip.0 as int];
        let arrival_ps = label.arrival_ps + query.pip_delay(pip);
        let quantum = query.delay_quantum_ps as int;
        let step = if quantum == ROUTING_DELAY_QUANTUM_PS {
            step_cost(query.pip_delay(pip), query.criticality as int, congestion, quantum)
        } else {
            transition_cost(
                label.arrival_ps as int,
                arrival_ps,
                query.criticality as int,
                congestion,
                quantum,
            )
        };
        RouteLabel {
            distance: clip_u32(clip_u64(label.distance + step)) as u32,
            arrival_ps: clip_u32(arrival_ps) as u32,
            previous: Some((from, pip)),
        }
    }

    /// The label is better than what is known of the wire.
    pub open spec fn surpasses(
        &self,
        point: SearchPoint,
        wire: WireId,
        label: RouteLabel,
    ) -> bool {
        point.labels.contains_key(wire) ==> {
            let known = point.labels[wire];
            label.distance < known.distance || (label.distance == known.distance
                && label.arrival_ps < known.arrival_ps)
        }
    }

    /// One hop of a wire is followed.
    pub open spec fn relaxed(
        &self,
        space: SearchSpace<'_>,
        wire: WireId,
        point: SearchPoint,
        index: int,
    ) -> SearchPoint {
        let hop = space.query.graph.device.neighbors@[wire.0 as int]@[index];
        let label = self.next_label(space, wire, point.labels[wire], hop.1, hop.0);
        if space.hop(wire, hop.1, hop.0) && self.surpasses(point, hop.0, label) {
            self.reach(space, point, hop.0, label)
        } else {
            point
        }
    }

    /// The first hops of a wire are followed.
    pub open spec fn unfolded(
        &self,
        space: SearchSpace<'_>,
        wire: WireId,
        point: SearchPoint,
        count: int,
    ) -> SearchPoint
        decreases count,
    {
        if count <= 0 {
            point
        } else {
            self.relaxed(space, wire, self.unfolded(space, wire, point, count - 1), count - 1)
        }
    }

    /// The entry carries the label of its wire.
    pub open spec fn is_current(&self, point: SearchPoint, entry: RouteQueueEntry) -> bool {
        let wire = WireId(entry.wire as usize);
        &&& point.labels.contains_key(wire)
        &&& point.labels[wire].distance == entry.distance
        &&& point.labels[wire].arrival_ps == entry.arrival_ps
    }

    /// The least entry leaves the queue away from the goal, and the hops of its
    /// wire are followed unless it is outdated.
    pub open spec fn is_step(
        &self,
        space: SearchSpace<'_>,
        before: SearchPoint,
        entry: RouteQueueEntry,
        after: SearchPoint,
    ) -> bool {
        let wire = WireId(entry.wire as usize);
        let rest = SearchPoint { labels: before.labels, queue: before.queue.remove(entry) };
        let hops = space.query.graph.device.neighbors@[wire.0 as int]@.len();
        &&& comes_first(before.queue, entry)
        &&& if self.is_current(before, entry) {
            wire != space.query.goal && after == self.unfolded(space, wire, rest, hops as int)
        } else {
            after == rest
        }
    }

    /// One step of the course.
    pub open spec fn is_step_at(
        &self,
        space: SearchSpace<'_>,
        points: Seq<SearchPoint>,
        entries: Seq<RouteQueueEntry>,
        at: int,
    ) -> bool {
        self.is_step(space, points[at], entries[at], points[at + 1])
    }

    /// The course of the search from the tree on.
    pub open spec fn is_course(
        &self,
        space: SearchSpace<'_>,
        starts: Seq<WireId>,
        points: Seq<SearchPoint>,
        entries: Seq<RouteQueueEntry>,
    ) -> bool {
        &&& points.len() == entries.len() + 1
        &&& points[0] == self.sown(space, starts, starts.len() as int)
        &&& forall|i: int|
            0 <= i < entries.len() ==> #[trigger] self.is_step_at(space, points, entries, i)
    }

    /// The least entry stands at the goal and the path leads back from there, or
    /// without a path no entry is left.
    pub open spec fn is_end(
        &self,
        space: SearchSpace<'_>,
        point: SearchPoint,
        result: Option<(Vec<WireId>, Vec<PipId>)>,
    ) -> bool {
        match result {
            None => point.queue.len() == 0,
            Some(path) => {
                &&& path.0@[0] == space.query.goal
                &&& leads_back(point.labels, path.0@, path.1@)
                &&& exists|entry: RouteQueueEntry| #[trigger]
                    comes_first(point.queue, entry) && self.is_current(point, entry) && entry.wire
                        == space.query.goal.0
            },
        }
    }

    /// Where the entry is followed, what leaves no room for a hop was met.
    pub open spec fn met_at(
        &self,
        space: SearchSpace<'_>,
        points: Seq<SearchPoint>,
        entries: Seq<RouteQueueEntry>,
        at: int,
        met: MetResources,
    ) -> bool {
        self.is_current(points[at], entries[at]) ==> space.meets(
            WireId(entries[at].wire as usize),
            met,
        )
    }

    /// What leaves no room for a hop of the course was met.
    pub open spec fn meets_all(
        &self,
        space: SearchSpace<'_>,
        points: Seq<SearchPoint>,
        entries: Seq<RouteQueueEntry>,
        met: MetResources,
    ) -> bool {
        forall|i: int|
            0 <= i < entries.len() ==> #[trigger] self.met_at(space, points, entries, i, met)
    }

    /// What was met stays met.
    pub proof fn lemma_met_more(
        &self,
        space: SearchSpace<'_>,
        points: Seq<SearchPoint>,
        entries: Seq<RouteQueueEntry>,
        met: MetResources,
        more: MetResources,
    )
        requires
            self.meets_all(space, points, entries, met),
            met.within(more),
        ensures
            self.meets_all(space, points, entries, more),
    {
        assert forall|i: int| 0 <= i < entries.len() implies #[trigger] self.met_at(
            space,
            points,
            entries,
            i,
            more,
        ) by {
            assert(self.met_at(space, points, entries, i, met));
            let wire = WireId(entries[i].wire as usize);
            if self.is_current(points[i], entries[i]) {
                space.lemma_meets_more(
                    wire,
                    space.query.graph.device.neighbors@[wire.0 as int]@.len() as int,
                    met,
                    more,
                );
            }
        }
    }

    /// One more entry, whose hops met what they could.
    pub proof fn lemma_met_step(
        &self,
        space: SearchSpace<'_>,
        points: Seq<SearchPoint>,
        entries: Seq<RouteQueueEntry>,
        entry: RouteQueueEntry,
        next: SearchPoint,
        met: MetResources,
    )
        requires
            points.len() == entries.len() + 1,
            self.meets_all(space, points, entries, met),
            self.is_current(points.last(), entry) ==> space.meets(
                WireId(entry.wire as usize),
                met,
            ),
        ensures
            self.meets_all(space, points.push(next), entries.push(entry), met),
    {
        let more_points = points.push(next);
        let more_entries = entries.push(entry);
        assert forall|i: int| 0 <= i < more_entries.len() implies #[trigger] self.met_at(
            space,
            more_points,
            more_entries,
            i,
            met,
        ) by {
            if i < entries.len() {
                assert(self.met_at(space, points, entries, i, met));
                assert(more_points[i] == points[i] && more_entries[i] == entries[i]);
            } else {
                assert(more_points[i] == points.last() && more_entries[i] == entry);
            }
        }
    }

    /// The search of the space ends with the answer, and what leaves no room for
    /// a hop of it was met.
    pub open spec fn searches(
        &self,
        space: SearchSpace<'_>,
        starts: Seq<WireId>,
        result: Option<(Vec<WireId>, Vec<PipId>)>,
        met: MetResources,
    ) -> bool {
        exists|points: Seq<SearchPoint>, entries: Seq<RouteQueueEntry>|
            {
                &&& #[trigger] self.is_course(space, starts, points, entries)
                &&& self.is_end(space, points.last(), result)
                &&& self.meets_all(space, points, entries, met)
            }
    }

    /// What was met stays met.
    pub proof fn lemma_searches_more(
        &self,
        space: SearchSpace<'_>,
        starts: Seq<WireId>,
        result: Option<(Vec<WireId>, Vec<PipId>)>,
        met: MetResources,
        more: MetResources,
    )
        requires
            self.searches(space, starts, result, met),
            met.within(more),
        ensures
            self.searches(space, starts, result, more),
    {
        let (points, entries) = choose|points: Seq<SearchPoint>, entries: Seq<RouteQueueEntry>|
            {
                &&& #[trigger] self.is_course(space, starts, points, entries)
                &&& self.is_end(space, points.last(), result)
                &&& self.meets_all(space, points, entries, met)
            };
        self.lemma_met_more(space, points, entries, met, more);
        assert(self.is_course(space, starts, points, entries));
    }

    /// Only the estimates matter where one hop is followed.
    pub proof fn lemma_same_relaxed(
        &self,
        other: &RouteSearch,
        space: SearchSpace<'_>,
        wire: WireId,
        point: SearchPoint,
        index: int,
    )
        requires
            self.same_estimates(other),
        ensures
            self.relaxed(space, wire, point, index) == other.relaxed(space, wire, point, index),
    {
    }

    /// Only the estimates matter where the search begins.
    pub proof fn lemma_same_sown(
        &self,
        other: &RouteSearch,
        space: SearchSpace<'_>,
        starts: Seq<WireId>,
        count: int,
    )
        requires
            self.same_estimates(other),
        ensures
            self.sown(space, starts, count) == other.sown(space, starts, count),
        decreases count,
    {
        if count > 0 {
            self.lemma_same_sown(other, space, starts, count - 1);
        }
    }

    /// Only the estimates matter where hops are followed.
    proof fn lemma_same_unfolded(
        &self,
        other: &RouteSearch,
        space: SearchSpace<'_>,
        wire: WireId,
        point: SearchPoint,
        count: int,
    )
        requires
            self.same_estimates(other),
        ensures
            self.unfolded(space, wire, point, count) == other.unfolded(space, wire, point, count),
        decreases count,
    {
        if count > 0 {
            self.lemma_same_unfolded(other, space, wire, point, count - 1);
            self.lemma_same_relaxed(
                other,
                space,
                wire,
                self.unfolded(space, wire, point, count - 1),
                count - 1,
            );
        }
    }

    /// Only the estimates of a search matter for its answer.
    pub proof fn lemma_same_searches(
        &self,
        other: &RouteSearch,
        space: SearchSpace<'_>,
        starts: Seq<WireId>,
        result: Option<(Vec<WireId>, Vec<PipId>)>,
        met: MetResources,
    )
        requires
            self.same_estimates(other),
            self.searches(space, starts, result, met),
        ensures
            other.searches(space, starts, result, met),
    {
        let (points, entries) = choose|points: Seq<SearchPoint>, entries: Seq<RouteQueueEntry>|
            {
                &&& #[trigger] self.is_course(space, starts, points, entries)
                &&& self.is_end(space, points.last(), result)
                &&& self.meets_all(space, points, entries, met)
            };
        self.lemma_same_sown(other, space, starts, starts.len() as int);
        assert forall|i: int| 0 <= i < entries.len() implies #[trigger] other.is_step_at(
            space,
            points,
            entries,
            i,
        ) by {
            assert(self.is_step_at(space, points, entries, i));
            let wire = WireId(entries[i].wire as usize);
            let rest = SearchPoint {
                labels: points[i].labels,
                queue: points[i].queue.remove(entries[i]),
            };
            let hops = space.query.graph.device.neighbors@[wire.0 as int]@.len();
            self.lemma_same_unfolded(other, space, wire, rest, hops as int);
        }
        assert(other.is_course(space, starts, points, entries));
        if let Some(path) = result {
            let point = points.last();
            let entry = choose|entry: RouteQueueEntry| #[trigger]
                comes_first(point.queue, entry) && self.is_current(point, entry) && entry.wire
                    == space.query.goal.0;
            assert(comes_first(point.queue, entry) && other.is_current(point, entry));
        }
        assert(other.is_end(space, points.last(), result));
        assert forall|i: int| 0 <= i < entries.len() implies #[trigger] other.met_at(
            space,
            points,
            entries,
            i,
            met,
        ) by {
            assert(self.met_at(space, points, entries, i, met));
        }
    }

    /// One more entry makes a longer course.
    pub proof fn lemma_course_grows(
        &self,
        space: SearchSpace<'_>,
        starts: Seq<WireId>,
        points: Seq<SearchPoint>,
        entries: Seq<RouteQueueEntry>,
        entry: RouteQueueEntry,
        next: SearchPoint,
    )
        requires
            self.is_course(space, starts, points, entries),
            self.is_step(space, points.last(), entry, next),
        ensures
            self.is_course(space, starts, points.push(next), entries.push(entry)),
    {
        let more_points = points.push(next);
        let more_entries = entries.push(entry);
        assert forall|i: int| 0 <= i < more_entries.len() implies #[trigger] self.is_step_at(
            space,
            more_points,
            more_entries,
            i,
        ) by {
            if i < entries.len() {
                assert(self.is_step_at(space, points, entries, i));
                assert(more_points[i] == points[i] && more_points[i + 1] == points[i + 1]);
                assert(more_entries[i] == entries[i]);
            } else {
                assert(more_points[i] == points.last());
            }
        }
    }
}

} // verus!
